//! # Processor graph
//!
//! A directed graph without cycles. Each node holds a processor; an edge
//! hands the output of one node to the next as an input. Evaluating the
//! graph pulls from the node that was chosen as its output.

pub mod input_component;
pub mod nodes;
pub mod parameters;
pub mod processor_component;
pub mod text;

use crate::graph::input_component::{lemma_filled_after_clear, lemma_filled_after_fill, without};
use crate::graph::nodes::{
    lemma_removed_handle, removed_handle, Node, NodeHandle, ProcessorComponent, SubgraphHandle,
};
use crate::graph::parameters::ProcessorTypeInfo;
use crate::graph::processor_component::{
    all_valid, values, BasicProcessor, CheckedBasicProcessor, CheckedSubgraphProcessor, Payload,
    SubgraphProcessor, UncheckedBasic, UncheckedSubgraph,
};
use crate::handled_vec::data_vector::StdVec;
use crate::handled_vec::handles::{Handle, MarkedHandle};
use crate::handled_vec::{parts, Arena, HandledVec, HandledVecError, Lookup};
use crate::hardeen_error::HardeenError;
use std::rc::Rc;
use vstd::prelude::*;

verus! {

/// A name under which a graph offers a parameter of one of its nodes.
pub struct ExposedParameter<T: Payload> {
    exposed_name: String,
    node_handle: NodeHandle<T>,
    parameter_name: String,
}

impl<T: Payload> ExposedParameter<T> {
    pub closed spec fn alias(&self) -> Seq<char> {
        self.exposed_name@
    }

    pub closed spec fn target(&self) -> NodeHandle<T> {
        self.node_handle
    }

    pub closed spec fn parameter(&self) -> Seq<char> {
        self.parameter_name@
    }

    fn new(exposed_name: &str, node_handle: &NodeHandle<T>, parameter_name: &str) -> (exposed: Self)
        ensures
            exposed.alias() == exposed_name@,
            exposed.target() == *node_handle,
            exposed.parameter() == parameter_name@,
    {
        ExposedParameter {
            exposed_name: exposed_name.to_string(),
            node_handle: *node_handle,
            parameter_name: parameter_name.to_string(),
        }
    }

    pub fn get_node_handle(&self) -> (handle: &NodeHandle<T>)
        ensures
            *handle == self.target(),
    {
        &self.node_handle
    }

    pub fn get_parameter_name(&self) -> (name: &str)
        ensures
            name@ == self.parameter(),
    {
        self.parameter_name.as_str()
    }
}

#[verifier::reject_recursive_types(T)]
#[verifier::reject_recursive_types(P)]
#[verifier::reject_recursive_types(S)]
pub struct Graph<T: Payload, P: CheckedBasicProcessor<T>, S: CheckedSubgraphProcessor<T>> {
    nodes: HandledVec<NodeHandle<T>, StdVec<Node<T, P, S>>>,
    exposed_parameters: Vec<ExposedParameter<T>>,
    subgraphs: Option<HandledVec<SubgraphHandle<T>, StdVec<Graph<T, P, S>>>>,
    output_node_handle: Option<NodeHandle<T>>,
    processor_types: Vec<ProcessorTypeInfo>,
}

impl<T: Payload, P: CheckedBasicProcessor<T>, S: CheckedSubgraphProcessor<T>> Graph<T, P, S> {
    pub closed spec fn nodes(&self) -> Arena<Node<T, P, S>> {
        self.nodes@
    }

    pub closed spec fn subgraphs(&self) -> Arena<Graph<T, P, S>> {
        match self.subgraphs {
            Some(subgraphs) => subgraphs@,
            None => Arena::empty(),
        }
    }

    /// The node that the graph is evaluated from, once one is chosen.
    pub closed spec fn output(&self) -> Option<NodeHandle<T>> {
        self.output_node_handle
    }

    /// The exposed parameters, in the order in which they were exposed.
    pub closed spec fn exposed(&self) -> Seq<ExposedParameter<T>> {
        self.exposed_parameters@
    }

    pub open spec fn has_node(&self, handle: NodeHandle<T>) -> bool {
        self.nodes().contains(handle.index, handle.generation)
    }

    pub open spec fn node(&self, handle: NodeHandle<T>) -> Node<T, P, S> {
        self.nodes().value(handle.index)
    }

    pub open spec fn has_subgraph(&self, handle: SubgraphHandle<T>) -> bool {
        self.subgraphs().contains(handle.index, handle.generation)
    }

    pub open spec fn subgraph(&self, handle: SubgraphHandle<T>) -> Graph<T, P, S> {
        self.subgraphs().value(handle.index)
    }

    /// The output of `from` is an input of `to`.
    pub open spec fn edge(&self, from: NodeHandle<T>, to: NodeHandle<T>) -> bool {
        self.has_node(from) && self.has_node(to) && self.node(from).outputs().contains(to)
    }

    /// Every node that the node names as an output exists and names the node
    /// as an input.
    pub open spec fn outputs_linked(&self, handle: NodeHandle<T>) -> bool {
        forall|k: int|
            0 <= k < self.node(handle).outputs().len() ==> self.has_node(
                #[trigger] self.node(handle).outputs()[k],
            ) && self.node(self.node(handle).outputs()[k]).inputs().contains(handle)
    }

    /// Every node that the node names as an input exists and names the node
    /// as an output.
    pub open spec fn inputs_linked(&self, handle: NodeHandle<T>) -> bool {
        forall|k: int|
            0 <= k < self.node(handle).inputs().len() ==> self.has_node(
                #[trigger] self.node(handle).inputs()[k],
            ) && self.node(self.node(handle).inputs()[k]).outputs().contains(handle)
    }

    /// The node is in order, its edges have their counterparts at the other
    /// end, and the subgraph of a subgraph processor exists.
    pub open spec fn linked(&self, handle: NodeHandle<T>) -> bool {
        &&& self.node(handle).wf()
        &&& self.outputs_linked(handle)
        &&& self.inputs_linked(handle)
        &&& self.node(handle).has_subgraph() ==> self.has_subgraph(
            self.node(handle).subgraph_handle(),
        )
    }

    /// The rank rises along every edge.
    pub open spec fn rising(&self, rank: spec_fn(int) -> nat) -> bool {
        forall|from: NodeHandle<T>, to: NodeHandle<T>| #[trigger]
            self.edge(from, to) ==> rank(from.index as int) < rank(to.index as int)
    }

    /// The rank falls along every edge.
    pub open spec fn falling(&self, rank: spec_fn(int) -> nat) -> bool {
        forall|from: NodeHandle<T>, to: NodeHandle<T>| #[trigger]
            self.edge(from, to) ==> rank(from.index as int) > rank(to.index as int)
    }

    /// The nodes of this graph are in order: every edge is known at both
    /// of its ends, and the nodes can be ranked so that the rank rises along
    /// every edge, and so that it falls along every edge.
    pub closed spec fn wf_here(&self) -> bool {
        &&& self.nodes.wf()
        &&& forall|handle: NodeHandle<T>| self.has_node(handle) ==> #[trigger] self.linked(handle)
        &&& exists|rank: spec_fn(int) -> nat| self.rising(rank)
        &&& exists|rank: spec_fn(int) -> nat| self.falling(rank)
    }

    /// This graph and every graph below it are in order.
    pub closed spec fn wf(&self) -> bool
        decreases self,
    {
        &&& self.wf_here()
        &&& match self.subgraphs {
            Some(subgraphs) => subgraphs.wf() && forall|i: int|
                0 <= i < subgraphs@.slots.len() && (#[trigger] subgraphs@.slots[i]).data is Some
                    ==> {
                    proof {
                        subgraphs.lemma_slot_decreases(i);
                    }
                    subgraphs@.slots[i].data->0.wf()
                },
            None => true,
        }
    }

    /// What a graph in order offers: its containers are in order, so is
    /// every subgraph, every edge is known at both of its ends, and there
    /// are the two rankings.
    pub proof fn lemma_wf(&self)
        requires
            self.wf(),
        ensures
            self.nodes().wf(),
            self.subgraphs().wf(),
            forall|handle: NodeHandle<T>| self.has_node(handle) ==> #[trigger] self.linked(handle),
            forall|handle: SubgraphHandle<T>| #[trigger]
                self.has_subgraph(handle) ==> self.subgraph(handle).wf(),
            exists|rank: spec_fn(int) -> nat| self.rising(rank),
            exists|rank: spec_fn(int) -> nat| self.falling(rank),
    {
        assert forall|handle: SubgraphHandle<T>| #[trigger]
            self.has_subgraph(handle) implies self.subgraph(handle).wf() by {
            assert(self.subgraphs().slots[handle.index as int].data is Some);
        }
    }

    /// A walk along edges: every node of the sequence has the next one as
    /// an output.
    pub open spec fn is_path(&self, path: Seq<NodeHandle<T>>) -> bool {
        &&& path.len() >= 1
        &&& self.has_node(path[0])
        &&& forall|i: int|
            #![trigger path[i]]
            0 <= i < path.len() - 1 ==> self.edge(path[i], path[i + 1])
    }

    /// There is a walk along edges from one node to the other. Every node
    /// reaches itself.
    pub open spec fn reaches(&self, from: NodeHandle<T>, to: NodeHandle<T>) -> bool {
        exists|path: Seq<NodeHandle<T>>|
            #![trigger self.is_path(path)]
            self.is_path(path) && path[0] == from && path.last() == to
    }

    /// Along a walk a rank that rises along edges does not fall, and rises
    /// where the walk has an edge.
    pub proof fn lemma_path_rises(&self, path: Seq<NodeHandle<T>>, rank: spec_fn(int) -> nat)
        requires
            self.is_path(path),
            self.rising(rank),
        ensures
            rank(path[0].index as int) <= rank(path.last().index as int),
            path.len() >= 2 ==> rank(path[0].index as int) < rank(path.last().index as int),
            self.has_node(path.last()),
        decreases path.len(),
    {
        if path.len() >= 2 {
            let shorter = path.drop_last();
            assert forall|i: int|
                #![trigger shorter[i]]
                0 <= i < shorter.len() - 1 implies self.edge(shorter[i], shorter[i + 1]) by {
                assert(shorter[i] == path[i]);
                assert(shorter[i + 1] == path[i + 1]);
            }
            assert(shorter[0] == path[0]);
            self.lemma_path_rises(shorter, rank);
            let k = path.len() - 2;
            assert(self.edge(path[k], path[k + 1]));
            assert(shorter.last() == path[k]);
        }
    }

    /// A graph in order has no cycle: a walk with an edge does not end where
    /// it began.
    pub proof fn lemma_acyclic(&self, path: Seq<NodeHandle<T>>)
        requires
            self.wf(),
            self.is_path(path),
            path.len() >= 2,
        ensures
            path[0] != path.last(),
    {
        let rank = choose|rank: spec_fn(int) -> nat| self.rising(rank);
        self.lemma_path_rises(path, rank);
    }

    /// A walk goes on along an edge at its end.
    pub proof fn lemma_reaches_then_edge(
        &self,
        from: NodeHandle<T>,
        middle: NodeHandle<T>,
        to: NodeHandle<T>,
    )
        requires
            self.reaches(from, middle),
            self.edge(middle, to),
        ensures
            self.reaches(from, to),
    {
        let path = choose|path: Seq<NodeHandle<T>>|
            #![trigger self.is_path(path)]
            self.is_path(path) && path[0] == from && path.last() == middle;
        let longer = path.push(to);
        assert forall|i: int|
            #![trigger longer[i]]
            0 <= i < longer.len() - 1 implies self.edge(longer[i], longer[i + 1]) by {
            if i < path.len() - 1 {
                assert(longer[i] == path[i]);
                assert(longer[i + 1] == path[i + 1]);
            }
        }
        assert(longer[0] == path[0]);
        assert(self.is_path(longer));
    }

    /// A walk goes on along an edge at its start.
    pub proof fn lemma_edge_then_reaches(
        &self,
        from: NodeHandle<T>,
        middle: NodeHandle<T>,
        to: NodeHandle<T>,
    )
        requires
            self.edge(from, middle),
            self.reaches(middle, to),
        ensures
            self.reaches(from, to),
    {
        let path = choose|path: Seq<NodeHandle<T>>|
            #![trigger self.is_path(path)]
            self.is_path(path) && path[0] == middle && path.last() == to;
        let longer = seq![from] + path;
        assert forall|i: int|
            #![trigger longer[i]]
            0 <= i < longer.len() - 1 implies self.edge(longer[i], longer[i + 1]) by {
            if i >= 1 {
                assert(longer[i] == path[i - 1]);
                assert(longer[i + 1] == path[i]);
            } else {
                assert(longer[1] == path[0]);
            }
        }
        assert(longer.last() == path.last());
        assert(self.is_path(longer));
    }

    /// A node that exists reaches itself.
    pub proof fn lemma_reaches_itself(&self, handle: NodeHandle<T>)
        requires
            self.has_node(handle),
        ensures
            self.reaches(handle, handle),
    {
        let path = seq![handle];
        assert(self.is_path(path));
        assert(path[0] == handle && path.last() == handle);
    }

    /// A walk to another node begins with an edge, and ends with one.
    pub proof fn lemma_reaches_by_edge(&self, from: NodeHandle<T>, to: NodeHandle<T>)
        requires
            self.reaches(from, to),
            from != to,
        ensures
            exists|next: NodeHandle<T>| #[trigger] self.edge(from, next) && self.reaches(next, to),
            exists|before: NodeHandle<T>|
                self.reaches(from, before) && #[trigger] self.edge(before, to),
    {
        let path = choose|path: Seq<NodeHandle<T>>|
            #![trigger self.is_path(path)]
            self.is_path(path) && path[0] == from && path.last() == to;
        assert(path.len() >= 2);
        let rest = path.drop_first();
        assert(self.edge(path[0], path[1]));
        assert forall|i: int|
            #![trigger rest[i]]
            0 <= i < rest.len() - 1 implies self.edge(rest[i], rest[i + 1]) by {
            assert(rest[i] == path[i + 1]);
            assert(rest[i + 1] == path[i + 2]);
        }
        assert(rest[0] == path[1]);
        assert(rest.last() == path.last());
        assert(self.is_path(rest));
        assert(self.edge(from, path[1]) && self.reaches(path[1], to));
        let front = path.drop_last();
        assert forall|i: int|
            #![trigger front[i]]
            0 <= i < front.len() - 1 implies self.edge(front[i], front[i + 1]) by {
            assert(front[i] == path[i]);
            assert(front[i + 1] == path[i + 1]);
        }
        assert(front[0] == path[0]);
        assert(self.is_path(front));
        let k = path.len() - 2;
        assert(self.edge(path[k], path[k + 1]));
        assert(front.last() == path[k]);
        assert(self.reaches(from, path[k]) && self.edge(path[k], to));
    }

    /// Whether a walk along edges leads from one node to the other.
    fn path_exists(
        &self,
        from: &NodeHandle<T>,
        to: &NodeHandle<T>,
        Ghost(rank): Ghost<spec_fn(int) -> nat>,
    ) -> (exists: bool)
        requires
            self.wf_here(),
            self.has_node(*from),
            self.falling(rank),
        ensures
            exists == self.reaches(*from, *to),
        decreases rank(from.index as int),
    {
        if from.index == to.index && from.generation == to.generation {
            proof {
                self.lemma_reaches_itself(*from);
            }
            return true;
        }
        let outputs = match self.nodes.get(from) {
            Ok(start) => start.get_all_outputs(),
            Err(_) => Vec::new(),
        };
        assert(self.linked(*from));
        let mut current: usize = 0;
        let length = outputs.len();
        while current < length
            invariant
                current <= length,
                length == outputs@.len(),
                outputs@ == self.node(*from).outputs(),
                self.wf_here(),
                self.has_node(*from),
                self.linked(*from),
                self.falling(rank),
                forall|k: int| 0 <= k < current ==> !self.reaches(#[trigger] outputs@[k], *to),
            decreases length - current,
        {
            let next = outputs[current];
            assert(self.has_node(self.node(*from).outputs()[current as int]));
            assert(self.node(*from).outputs().contains(next));
            assert(self.edge(*from, next));
            if self.path_exists(&next, to, Ghost(rank)) {
                proof {
                    self.lemma_edge_then_reaches(*from, next, *to);
                }
                return true;
            }
            current += 1;
        }
        proof {
            if self.reaches(*from, *to) {
                self.lemma_reaches_by_edge(*from, *to);
                let next = choose|next: NodeHandle<T>| #[trigger]
                    self.edge(*from, next) && self.reaches(next, *to);
                let k = choose|k: int| 0 <= k < outputs@.len() && outputs@[k] == next;
                assert(!self.reaches(outputs@[k], *to));
            }
        }
        false
    }

    /// Rankings of a graph rank every graph that has no edge besides.
    proof fn lemma_fewer_edges(&self, later: &Graph<T, P, S>)
        requires
            exists|rank: spec_fn(int) -> nat| self.rising(rank),
            exists|rank: spec_fn(int) -> nat| self.falling(rank),
            forall|from: NodeHandle<T>, to: NodeHandle<T>| #[trigger]
                later.edge(from, to) ==> self.edge(from, to),
        ensures
            exists|rank: spec_fn(int) -> nat| later.rising(rank),
            exists|rank: spec_fn(int) -> nat| later.falling(rank),
    {
        let up = choose|rank: spec_fn(int) -> nat| self.rising(rank);
        assert(later.rising(up));
        let down = choose|rank: spec_fn(int) -> nat| self.falling(rank);
        assert(later.falling(down));
    }

    /// A graph whose nodes are in order is in order when its subgraphs are
    /// those of a graph in order.
    proof fn lemma_same_subgraphs(&self, later: &Graph<T, P, S>)
        requires
            self.wf(),
            later.wf_here(),
            later.subgraphs == self.subgraphs,
        ensures
            later.wf(),
    {
    }

    /// A node that keeps its edges in a graph that keeps its nodes and their
    /// edges stays linked.
    proof fn lemma_stays_linked(&self, later: &Graph<T, P, S>, handle: NodeHandle<T>)
        requires
            self.has_node(handle),
            self.linked(handle),
            later.node(handle).wf(),
            later.node(handle).inputs() == self.node(handle).inputs(),
            later.node(handle).outputs() == self.node(handle).outputs(),
            later.node(handle).has_subgraph() == self.node(handle).has_subgraph(),
            later.node(handle).has_subgraph() ==> later.node(handle).subgraph_handle()
                == self.node(handle).subgraph_handle(),
            forall|other: NodeHandle<T>| #[trigger] self.has_node(other) ==> later.has_node(other),
            forall|other: NodeHandle<T>| #[trigger]
                self.has_node(other) && self.node(other).inputs().contains(handle)
                    ==> later.node(other).inputs().contains(handle),
            forall|other: NodeHandle<T>| #[trigger]
                self.has_node(other) && self.node(other).outputs().contains(handle)
                    ==> later.node(other).outputs().contains(handle),
            forall|other: SubgraphHandle<T>| #[trigger]
                self.has_subgraph(other) ==> later.has_subgraph(other),
        ensures
            later.linked(handle),
    {
        assert forall|k: int| 0 <= k < later.node(handle).outputs().len() implies later.has_node(
            #[trigger] later.node(handle).outputs()[k],
        ) && later.node(later.node(handle).outputs()[k]).inputs().contains(handle) by {
            let other = self.node(handle).outputs()[k];
            assert(self.has_node(other));
            assert(self.node(other).inputs().contains(handle));
        }
        assert forall|k: int| 0 <= k < later.node(handle).inputs().len() implies later.has_node(
            #[trigger] later.node(handle).inputs()[k],
        ) && later.node(later.node(handle).inputs()[k]).outputs().contains(handle) by {
            let other = self.node(handle).inputs()[k];
            assert(self.has_node(other));
            assert(self.node(other).outputs().contains(handle));
        }
    }

    /// The nodes of `later` are those of `self`, each in order, each with
    /// the subgraph it has here.
    pub open spec fn same_nodes(&self, later: &Graph<T, P, S>) -> bool {
        &&& forall|handle: NodeHandle<T>| #[trigger]
            later.has_node(handle) <==> self.has_node(handle)
        &&& forall|handle: NodeHandle<T>| #[trigger]
            self.has_node(handle) ==> {
                &&& later.node(handle).wf()
                &&& later.node(handle).has_subgraph() == self.node(handle).has_subgraph()
                &&& later.node(handle).has_subgraph() ==> later.node(handle).subgraph_handle()
                    == self.node(handle).subgraph_handle()
            }
        &&& forall|handle: SubgraphHandle<T>| #[trigger]
            self.has_subgraph(handle) ==> later.has_subgraph(handle)
    }

    /// The edges of `later` are those of `self` and one more, from `from` to
    /// `to`, known at both ends.
    pub open spec fn one_edge_more(
        &self,
        later: &Graph<T, P, S>,
        from: NodeHandle<T>,
        to: NodeHandle<T>,
    ) -> bool {
        &&& forall|handle: NodeHandle<T>, other: NodeHandle<T>|
            self.has_node(handle) ==> (#[trigger] later.node(handle).inputs().contains(other)
                <==> self.node(handle).inputs().contains(other) || (handle == to && other == from))
        &&& forall|handle: NodeHandle<T>, other: NodeHandle<T>|
            self.has_node(handle) ==> (#[trigger] later.node(handle).outputs().contains(other)
                <==> self.node(handle).outputs().contains(other) || (handle == from && other
                == to))
    }

    /// The edges of `later` are those of `self` but for the one from `from`
    /// to `to`, at both ends.
    pub open spec fn one_edge_less(
        &self,
        later: &Graph<T, P, S>,
        from: NodeHandle<T>,
        to: NodeHandle<T>,
    ) -> bool {
        &&& forall|handle: NodeHandle<T>, other: NodeHandle<T>|
            self.has_node(handle) ==> (#[trigger] later.node(handle).inputs().contains(other)
                <==> self.node(handle).inputs().contains(other) && !(handle == to && other
                == from))
        &&& forall|handle: NodeHandle<T>, other: NodeHandle<T>|
            self.has_node(handle) ==> (#[trigger] later.node(handle).outputs().contains(other)
                <==> self.node(handle).outputs().contains(other) && !(handle == from && other
                == to))
    }

    /// The edges of `later` are those of `self`, at both ends.
    pub open spec fn same_edges(&self, later: &Graph<T, P, S>) -> bool {
        &&& forall|handle: NodeHandle<T>, other: NodeHandle<T>|
            self.has_node(handle) ==> (#[trigger] later.node(handle).inputs().contains(other)
                <==> self.node(handle).inputs().contains(other))
        &&& forall|handle: NodeHandle<T>, other: NodeHandle<T>|
            self.has_node(handle) ==> (#[trigger] later.node(handle).outputs().contains(other)
                <==> self.node(handle).outputs().contains(other))
    }

    /// Every edge of `later`, but for one from `from` to `to`, is an edge of
    /// `self`, with its counterpart at the other end.
    proof fn lemma_edges_linked(&self, later: &Graph<T, P, S>, from: NodeHandle<T>, to: NodeHandle<T>)
        requires
            forall|handle: NodeHandle<T>| self.has_node(handle) ==> #[trigger] self.linked(handle),
            self.same_nodes(later),
            forall|handle: NodeHandle<T>, other: NodeHandle<T>|
                self.has_node(handle) && #[trigger] later.node(handle).inputs().contains(other)
                    ==> (self.node(handle).inputs().contains(other) && later.node(
                    other,
                ).outputs().contains(handle)) || (handle == to && other == from && self.has_node(
                    from,
                ) && later.node(from).outputs().contains(to)),
            forall|handle: NodeHandle<T>, other: NodeHandle<T>|
                self.has_node(handle) && #[trigger] later.node(handle).outputs().contains(other)
                    ==> (self.node(handle).outputs().contains(other) && later.node(
                    other,
                ).inputs().contains(handle)) || (handle == from && other == to && self.has_node(
                    to,
                ) && later.node(to).inputs().contains(from)),
        ensures
            forall|handle: NodeHandle<T>| later.has_node(handle) ==> #[trigger] later.linked(handle),
    {
        assert forall|handle: NodeHandle<T>| later.has_node(handle) implies #[trigger] later.linked(
            handle,
        ) by {
            assert(self.has_node(handle));
            assert(self.linked(handle));
            assert forall|k: int|
                0 <= k < later.node(handle).outputs().len() implies later.has_node(
                #[trigger] later.node(handle).outputs()[k],
            ) && later.node(later.node(handle).outputs()[k]).inputs().contains(handle) by {
                let other = later.node(handle).outputs()[k];
                assert(later.node(handle).outputs().contains(other));
                if self.node(handle).outputs().contains(other) {
                    let j = choose|j: int|
                        0 <= j < self.node(handle).outputs().len() && self.node(
                            handle,
                        ).outputs()[j] == other;
                    assert(self.has_node(self.node(handle).outputs()[j]));
                }
            }
            assert forall|k: int|
                0 <= k < later.node(handle).inputs().len() implies later.has_node(
                #[trigger] later.node(handle).inputs()[k],
            ) && later.node(later.node(handle).inputs()[k]).outputs().contains(handle) by {
                let other = later.node(handle).inputs()[k];
                assert(later.node(handle).inputs().contains(other));
                if self.node(handle).inputs().contains(other) {
                    let j = choose|j: int|
                        0 <= j < self.node(handle).inputs().len() && self.node(handle).inputs()[j]
                            == other;
                    assert(self.has_node(self.node(handle).inputs()[j]));
                }
            }
        }
    }

    /// A graph with the nodes and the edges of a graph in order, or with one
    /// edge less, has its edges known at both ends and has rankings.
    proof fn lemma_no_edge_more(&self, later: &Graph<T, P, S>, from: NodeHandle<T>, to: NodeHandle<T>)
        requires
            forall|handle: NodeHandle<T>| self.has_node(handle) ==> #[trigger] self.linked(handle),
            exists|rank: spec_fn(int) -> nat| self.rising(rank),
            exists|rank: spec_fn(int) -> nat| self.falling(rank),
            self.same_nodes(later),
            self.same_edges(later) || self.one_edge_less(later, from, to),
        ensures
            forall|handle: NodeHandle<T>| later.has_node(handle) ==> #[trigger] later.linked(handle),
            exists|rank: spec_fn(int) -> nat| later.rising(rank),
            exists|rank: spec_fn(int) -> nat| later.falling(rank),
    {
        assert forall|handle: NodeHandle<T>, other: NodeHandle<T>|
            self.has_node(handle) && #[trigger] later.node(handle).inputs().contains(
                other,
            ) implies (self.node(handle).inputs().contains(other) && later.node(
            other,
        ).outputs().contains(handle)) by {
            assert(self.linked(handle));
            let j = choose|j: int|
                0 <= j < self.node(handle).inputs().len() && self.node(handle).inputs()[j] == other;
            assert(self.has_node(self.node(handle).inputs()[j]));
            assert(self.node(other).outputs().contains(handle));
            assert(later.node(other).outputs().contains(handle));
        }
        assert forall|handle: NodeHandle<T>, other: NodeHandle<T>|
            self.has_node(handle) && #[trigger] later.node(handle).outputs().contains(
                other,
            ) implies (self.node(handle).outputs().contains(other) && later.node(
            other,
        ).inputs().contains(handle)) by {
            assert(self.linked(handle));
            let j = choose|j: int|
                0 <= j < self.node(handle).outputs().len() && self.node(handle).outputs()[j]
                    == other;
            assert(self.has_node(self.node(handle).outputs()[j]));
            assert(self.node(other).inputs().contains(handle));
            assert(later.node(other).inputs().contains(handle));
        }
        self.lemma_edges_linked(later, from, to);
        assert forall|a: NodeHandle<T>, b: NodeHandle<T>| #[trigger]
            later.edge(a, b) implies self.edge(a, b) by {
            assert(later.node(a).outputs().contains(b));
        }
        self.lemma_fewer_edges(later);
    }

    /// Where no walk leads from `to` to `from`, a graph with the nodes and
    /// the edges of a graph in order and with an edge from `from` to `to`
    /// has its edges known at both ends and has rankings.
    proof fn lemma_one_edge_more(&self, later: &Graph<T, P, S>, from: NodeHandle<T>, to: NodeHandle<T>)
        requires
            forall|handle: NodeHandle<T>| self.has_node(handle) ==> #[trigger] self.linked(handle),
            exists|rank: spec_fn(int) -> nat| self.rising(rank),
            exists|rank: spec_fn(int) -> nat| self.falling(rank),
            self.same_nodes(later),
            self.one_edge_more(later, from, to),
            self.has_node(from),
            self.has_node(to),
            !self.reaches(to, from),
        ensures
            forall|handle: NodeHandle<T>| later.has_node(handle) ==> #[trigger] later.linked(handle),
            exists|rank: spec_fn(int) -> nat| later.rising(rank),
            exists|rank: spec_fn(int) -> nat| later.falling(rank),
    {
        assert forall|handle: NodeHandle<T>, other: NodeHandle<T>|
            self.has_node(handle) && #[trigger] later.node(handle).inputs().contains(
                other,
            ) implies (self.node(handle).inputs().contains(other) && later.node(
            other,
        ).outputs().contains(handle)) || (handle == to && other == from && self.has_node(from)
            && later.node(from).outputs().contains(to)) by {
            if self.node(handle).inputs().contains(other) {
                assert(self.linked(handle));
                let j = choose|j: int|
                    0 <= j < self.node(handle).inputs().len() && self.node(handle).inputs()[j]
                        == other;
                assert(self.has_node(self.node(handle).inputs()[j]));
                assert(self.node(other).outputs().contains(handle));
                assert(later.node(other).outputs().contains(handle));
            } else {
                assert(later.node(from).outputs().contains(to));
            }
        }
        assert forall|handle: NodeHandle<T>, other: NodeHandle<T>|
            self.has_node(handle) && #[trigger] later.node(handle).outputs().contains(
                other,
            ) implies (self.node(handle).outputs().contains(other) && later.node(
            other,
        ).inputs().contains(handle)) || (handle == from && other == to && self.has_node(to)
            && later.node(to).inputs().contains(from)) by {
            if self.node(handle).outputs().contains(other) {
                assert(self.linked(handle));
                let j = choose|j: int|
                    0 <= j < self.node(handle).outputs().len() && self.node(handle).outputs()[j]
                        == other;
                assert(self.has_node(self.node(handle).outputs()[j]));
                assert(self.node(other).inputs().contains(handle));
                assert(later.node(other).inputs().contains(handle));
            } else {
                assert(later.node(to).inputs().contains(from));
            }
        }
        self.lemma_edges_linked(later, from, to);
        let up = choose|rank: spec_fn(int) -> nat| self.rising(rank);
        let lift = up(from.index as int) + 1;
        let new_up = |i: int|
            if exists|h: NodeHandle<T>| h.index == i && #[trigger] self.reaches(to, h) {
                (up(i) + lift) as nat
            } else {
                up(i)
            };
        assert forall|a: NodeHandle<T>, b: NodeHandle<T>| #[trigger]
            later.edge(a, b) implies new_up(a.index as int) < new_up(b.index as int) by {
            assert(later.node(a).outputs().contains(b));
            if self.node(a).outputs().contains(b) {
                assert(self.edge(a, b));
                if exists|h: NodeHandle<T>| h.index == a.index && #[trigger] self.reaches(to, h) {
                    let h = choose|h: NodeHandle<T>|
                        h.index == a.index && #[trigger] self.reaches(to, h);
                    self.lemma_reaches_live(to, h);
                    assert(h == a);
                    self.lemma_reaches_then_edge(to, a, b);
                }
            } else {
                assert(a == from && b == to);
                self.lemma_reaches_itself(to);
                if exists|h: NodeHandle<T>| h.index == a.index && #[trigger] self.reaches(to, h) {
                    let h = choose|h: NodeHandle<T>|
                        h.index == a.index && #[trigger] self.reaches(to, h);
                    self.lemma_reaches_live(to, h);
                    assert(h == from);
                }
            }
        }
        assert(later.rising(new_up));
        let down = choose|rank: spec_fn(int) -> nat| self.falling(rank);
        let drop = down(to.index as int) + 1;
        let new_down = |i: int|
            if exists|h: NodeHandle<T>| h.index == i && #[trigger] self.reaches(h, from) {
                (down(i) + drop) as nat
            } else {
                down(i)
            };
        assert forall|a: NodeHandle<T>, b: NodeHandle<T>| #[trigger]
            later.edge(a, b) implies new_down(a.index as int) > new_down(b.index as int) by {
            assert(later.node(a).outputs().contains(b));
            if self.node(a).outputs().contains(b) {
                assert(self.edge(a, b));
                if exists|h: NodeHandle<T>| h.index == b.index && #[trigger] self.reaches(h, from) {
                    let h = choose|h: NodeHandle<T>|
                        h.index == b.index && #[trigger] self.reaches(h, from);
                    self.lemma_reaches_from_live(h, from);
                    assert(h == b);
                    self.lemma_edge_then_reaches(a, b, from);
                }
            } else {
                assert(a == from && b == to);
                self.lemma_reaches_itself(from);
                if exists|h: NodeHandle<T>| h.index == b.index && #[trigger] self.reaches(h, from) {
                    let h = choose|h: NodeHandle<T>|
                        h.index == b.index && #[trigger] self.reaches(h, from);
                    self.lemma_reaches_from_live(h, from);
                    assert(h == to);
                }
            }
        }
        assert(later.falling(new_down));
    }

    /// What a walk leads to exists.
    pub proof fn lemma_reaches_live(&self, from: NodeHandle<T>, to: NodeHandle<T>)
        requires
            self.reaches(from, to),
        ensures
            self.has_node(to),
            self.has_node(from),
    {
        let path = choose|path: Seq<NodeHandle<T>>|
            #![trigger self.is_path(path)]
            self.is_path(path) && path[0] == from && path.last() == to;
        if path.len() >= 2 {
            let k = path.len() - 2;
            assert(self.edge(path[k], path[k + 1]));
        }
    }

    /// What a walk starts from exists.
    pub proof fn lemma_reaches_from_live(&self, from: NodeHandle<T>, to: NodeHandle<T>)
        requires
            self.reaches(from, to),
        ensures
            self.has_node(from),
    {
        self.lemma_reaches_live(from, to);
    }

    /// `later` is `self` but for what the nodes have cached.
    pub open spec fn same_but_caches(&self, later: &Graph<T, P, S>) -> bool {
        &&& later.nodes().same_layout(self.nodes())
        &&& later.subgraphs() == self.subgraphs()
        &&& later.output() == self.output()
        &&& later.exposed() == self.exposed()
        &&& forall|handle: NodeHandle<T>| #[trigger]
            self.has_node(handle) ==> {
                &&& later.node(handle).processor() == self.node(handle).processor()
                &&& later.node(handle).input() == self.node(handle).input()
                &&& later.node(handle).outputs() == self.node(handle).outputs()
            }
    }

    /// A graph that differs from a graph in order in its caches alone is in
    /// order.
    proof fn lemma_caches_only(&self, later: &Graph<T, P, S>)
        requires
            self.wf(),
            later.nodes.wf(),
            later.subgraphs == self.subgraphs,
            self.same_but_caches(later),
        ensures
            later.wf(),
            forall|path: Seq<NodeHandle<T>>| #[trigger] later.is_path(path) == self.is_path(path),
            forall|from: NodeHandle<T>, to: NodeHandle<T>| #[trigger]
                later.reaches(from, to) == self.reaches(from, to),
    {
        self.lemma_wf();
        assert(self.same_nodes(later)) by {
            assert forall|handle: NodeHandle<T>| #[trigger] self.has_node(handle) implies {
                &&& later.node(handle).wf()
                &&& later.node(handle).has_subgraph() == self.node(handle).has_subgraph()
                &&& later.node(handle).has_subgraph() ==> later.node(handle).subgraph_handle()
                    == self.node(handle).subgraph_handle()
            } by {
                assert(self.linked(handle));
            }
        }
        assert(self.same_edges(later));
        let someone: NodeHandle<T> = arbitrary();
        self.lemma_no_edge_more(later, someone, someone);
        self.lemma_same_subgraphs(later);
        self.lemma_same_walks(later);
    }

    /// A graph that differs from another in its caches alone has the walks
    /// of that graph.
    pub proof fn lemma_same_walks(&self, later: &Graph<T, P, S>)
        requires
            self.same_but_caches(later),
        ensures
            forall|path: Seq<NodeHandle<T>>| #[trigger] later.is_path(path) == self.is_path(path),
            forall|from: NodeHandle<T>, to: NodeHandle<T>| #[trigger]
                later.reaches(from, to) == self.reaches(from, to),
    {
        assert forall|path: Seq<NodeHandle<T>>| #[trigger]
            later.is_path(path) == self.is_path(path) by {
            if self.is_path(path) {
                assert forall|i: int|
                    #![trigger path[i]]
                    0 <= i < path.len() - 1 implies later.edge(path[i], path[i + 1]) by {
                    assert(self.edge(path[i], path[i + 1]));
                }
            }
            if later.is_path(path) {
                assert forall|i: int|
                    #![trigger path[i]]
                    0 <= i < path.len() - 1 implies self.edge(path[i], path[i + 1]) by {
                    assert(later.edge(path[i], path[i + 1]));
                    assert(self.has_node(path[i]));
                    assert(self.has_node(path[i + 1]));
                }
                assert(self.has_node(path[0]));
            }
        }
        assert forall|from: NodeHandle<T>, to: NodeHandle<T>| #[trigger]
            later.reaches(from, to) == self.reaches(from, to) by {
            if self.reaches(from, to) {
                let path = choose|path: Seq<NodeHandle<T>>|
                    #![trigger self.is_path(path)]
                    self.is_path(path) && path[0] == from && path.last() == to;
                assert(later.is_path(path));
            }
            if later.reaches(from, to) {
                let path = choose|path: Seq<NodeHandle<T>>|
                    #![trigger later.is_path(path)]
                    later.is_path(path) && path[0] == from && path.last() == to;
                assert(self.is_path(path));
            }
        }
    }

    /// Gives up what a node has cached, and what every node has cached that
    /// a walk leads to from it.
    fn invalidate_from(&mut self, node_handle: &NodeHandle<T>, Ghost(rank): Ghost<spec_fn(int) -> nat>)
        requires
            old(self).wf(),
            old(self).has_node(*node_handle),
            old(self).falling(rank),
        ensures
            final(self).wf(),
            old(self).caches_valid() ==> final(self).caches_valid(),
            final(self).subgraphs == old(self).subgraphs,
            old(self).same_but_caches(final(self)),
            forall|handle: NodeHandle<T>| #[trigger]
                old(self).has_node(handle) ==> final(self).node(handle).cached() == if old(self).reaches(*node_handle, handle) {
                    None
                } else {
                    old(self).node(handle).cached()
                },
        decreases rank(node_handle.index as int),
    {
        let ghost before = *old(self);
        let mut outputs: Vec<NodeHandle<T>> = Vec::new();
        proof {
            before.lemma_wf();
        }
        match self.nodes.get_mut(node_handle) {
            Ok(node) => {
                node.invalidate_cache();
                outputs = node.get_all_outputs();
            },
            Err(_) => {},
        }
        proof {
            before.nodes().lemma_update_frame(
                node_handle.index,
                node_handle.generation,
                self.node(*node_handle),
            );
            assert(before.same_but_caches(self)) by {
                assert forall|handle: NodeHandle<T>| #[trigger] before.has_node(handle) implies {
                    &&& self.node(handle).processor() == before.node(handle).processor()
                    &&& self.node(handle).input() == before.node(handle).input()
                    &&& self.node(handle).outputs() == before.node(handle).outputs()
                } by {
                    if handle.index != node_handle.index {
                        assert(self.nodes().slots[handle.index as int]
                            == before.nodes().slots[handle.index as int]);
                    }
                }
            }
            before.lemma_caches_only(self);
            assert(before.linked(*node_handle));
        }
        let mut current: usize = 0;
        let length = outputs.len();
        while current < length
            invariant
                current <= length,
                length == outputs@.len(),
                outputs@ == before.node(*node_handle).outputs(),
                before.wf(),
                before.has_node(*node_handle),
                before.linked(*node_handle),
                before.falling(rank),
                self.wf(),
                self.subgraphs == before.subgraphs,
                before.same_but_caches(self),
                forall|handle: NodeHandle<T>| #[trigger]
                    before.has_node(handle) ==> self.node(handle).cached() == if handle
                        == *node_handle || exists|k: int|
                        0 <= k < current && before.reaches(#[trigger] outputs@[k], handle) {
                        None
                    } else {
                        before.node(handle).cached()
                    },
            decreases length - current,
        {
            let next = outputs[current];
            let ghost previous = *self;
            proof {
                assert(before.has_node(before.node(*node_handle).outputs()[current as int]));
                assert(before.node(*node_handle).outputs().contains(next));
                assert(before.edge(*node_handle, next));
                previous.lemma_wf();
                before.lemma_caches_only(&previous);
                assert(previous.falling(rank)) by {
                    assert forall|a: NodeHandle<T>, b: NodeHandle<T>| #[trigger]
                        previous.edge(a, b) implies rank(a.index as int) > rank(b.index as int) by {
                        assert(before.has_node(a));
                        assert(before.has_node(b));
                        assert(previous.node(a).outputs() == before.node(a).outputs());
                        assert(before.edge(a, b));
                    }
                }
            }
            self.invalidate_from(&next, Ghost(rank));
            proof {
                assert(before.same_but_caches(self)) by {
                    assert forall|handle: NodeHandle<T>| #[trigger] before.has_node(handle) implies {
                        &&& self.node(handle).processor() == before.node(handle).processor()
                        &&& self.node(handle).input() == before.node(handle).input()
                        &&& self.node(handle).outputs() == before.node(handle).outputs()
                    } by {
                        assert(previous.has_node(handle));
                    }
                }
                assert forall|handle: NodeHandle<T>| #[trigger]
                    before.has_node(handle) implies self.node(handle).cached() == if handle
                    == *node_handle || exists|k: int|
                    0 <= k < current + 1 && before.reaches(#[trigger] outputs@[k], handle) {
                    None
                } else {
                    before.node(handle).cached()
                } by {
                    assert(previous.has_node(handle));
                    assert(previous.reaches(next, handle) == before.reaches(next, handle));
                    if before.reaches(next, handle) {
                        assert(before.reaches(outputs@[current as int], handle));
                    }
                    if exists|k: int|
                        0 <= k < current + 1 && before.reaches(#[trigger] outputs@[k], handle) {
                        let k = choose|k: int|
                            0 <= k < current + 1 && before.reaches(#[trigger] outputs@[k], handle);
                        if k < current {
                            assert(before.reaches(outputs@[k], handle));
                        }
                    }
                }
            }
            current += 1;
        }
        proof {
            assert forall|handle: NodeHandle<T>| #[trigger]
                before.has_node(handle) implies self.node(handle).cached() == if before.reaches(
                *node_handle,
                handle,
            ) {
                None
            } else {
                before.node(handle).cached()
            } by {
                if handle == *node_handle {
                    before.lemma_reaches_itself(handle);
                } else if before.reaches(*node_handle, handle) {
                    before.lemma_reaches_by_edge(*node_handle, handle);
                    let step = choose|step: NodeHandle<T>| #[trigger]
                        before.edge(*node_handle, step) && before.reaches(step, handle);
                    let k = choose|k: int| 0 <= k < outputs@.len() && outputs@[k] == step;
                    assert(before.reaches(outputs@[k], handle));
                } else {
                    if exists|k: int|
                        0 <= k < current && before.reaches(#[trigger] outputs@[k], handle) {
                        let k = choose|k: int|
                            0 <= k < current && before.reaches(#[trigger] outputs@[k], handle);
                        assert(before.has_node(before.node(*node_handle).outputs()[k]));
                        assert(before.node(*node_handle).outputs().contains(outputs@[k]));
                        assert(before.edge(*node_handle, outputs@[k]));
                        before.lemma_edge_then_reaches(*node_handle, outputs@[k], handle);
                    }
                }
            }
            assert forall|handle: NodeHandle<T>| #[trigger]
                self.has_node(handle) implies self.node(handle).cached() is None || (
            before.has_node(handle) && self.node(handle).cached() == before.node(
                handle,
            ).cached()) by {
                assert(before.has_node(handle));
            }
            before.lemma_caches_kept(self);
        }
    }

    /// Gives up what a node has cached, and what every node has cached that
    /// a walk along edges leads to from it. Nothing else changes.
    pub fn invalidate_cache(&mut self, node_handle: &NodeHandle<T>)
        requires
            old(self).wf(),
            old(self).has_node(*node_handle),
        ensures
            final(self).wf(),
            old(self).caches_valid() ==> final(self).caches_valid(),
            old(self).same_but_caches(final(self)),
            forall|handle: NodeHandle<T>| #[trigger]
                old(self).has_node(handle) ==> final(self).node(handle).cached() == if old(self).reaches(*node_handle, handle) {
                    None
                } else {
                    old(self).node(handle).cached()
                },
    {
        proof {
            self.lemma_wf();
        }
        let ghost rank = choose|rank: spec_fn(int) -> nat| self.falling(rank);
        self.invalidate_from(node_handle, Ghost(rank));
    }

    /// `later` is `self` but for the two nodes, and has the slots in use that
    /// `self` has.
    pub open spec fn same_but(&self, later: &Graph<T, P, S>, one: NodeHandle<T>, other: NodeHandle<T>) -> bool {
        &&& later.nodes().same_layout(self.nodes())
        &&& later.subgraphs() == self.subgraphs()
        &&& later.output() == self.output()
        &&& later.exposed() == self.exposed()
        &&& forall|handle: NodeHandle<T>| #[trigger]
            self.has_node(handle) && handle != one && handle != other ==> later.node(handle)
                == self.node(handle)
    }

    /// Adds an edge: `from` joins the inputs of `to`, at a multiple input or
    /// in an empty slot, and `to` joins the outputs of `from`.
    fn link(&mut self, from: &NodeHandle<T>, to: &NodeHandle<T>, slot: usize)
        requires
            old(self).wf(),
            old(self).has_node(*from),
            old(self).has_node(*to),
            !old(self).reaches(*to, *from),
            old(self).node(*to).is_slotted() ==>
                slot < old(self).node(*to).slots().len()
                && old(self).node(*to).slots()[slot as int] is None,
        ensures
            final(self).wf(),
            old(self).caches_valid() ==> final(self).caches_valid(),
            final(self).subgraphs == old(self).subgraphs,
            old(self).same_but(final(self), *from, *to),
            old(self).same_nodes(final(self)),
            old(self).one_edge_more(final(self), *from, *to),
            final(self).node(*to).processor() == old(self).node(*to).processor(),
            final(self).node(*to).outputs() == old(self).node(*to).outputs(),
            final(self).node(*to).cached() == old(self).node(*to).cached(),
            final(self).node(*to).is_slotted() == old(self).node(*to).is_slotted(),
            final(self).node(*to).zero_allowed() == old(self).node(*to).zero_allowed(),
            old(self).node(*to).is_slotted() ==> final(self).node(*to).slots() == old(self).node(
                *to,
            ).slots().update(slot as int, Some(*from)),
            !old(self).node(*to).is_slotted() ==>
                final(self).node(*to).connected() == if old(self).node(*to).connected().contains(*from) {
                old(self).node(*to).connected()
            } else {
                old(self).node(*to).connected().push(*from)
            },
            final(self).node(*from).processor() == old(self).node(*from).processor(),
            final(self).node(*from).input() == old(self).node(*from).input(),
            final(self).node(*from).cached() == old(self).node(*from).cached(),
            final(self).node(*from).outputs() == if old(self).node(*from).outputs().contains(*to) {
                old(self).node(*from).outputs()
            } else {
                old(self).node(*from).outputs().push(*to)
            },
    {
        let ghost before = *old(self);
        proof {
            before.lemma_wf();
            before.lemma_reaches_itself(*to);
            assert(*from != *to);
            assert(before.linked(*to));
            assert(before.linked(*from));
        }
        match self.nodes.get_mut(to) {
            Ok(node) => {
                let _ = node.connect_input_node(from, slot);
            },
            Err(_) => {},
        }
        let ghost between = *self;
        proof {
            before.nodes().lemma_update_frame(to.index, to.generation, between.node(*to));
        }
        match self.nodes.get_mut(from) {
            Ok(node) => {
                let _ = node.connect_output_node(to);
            },
            Err(_) => {},
        }
        proof {
            between.nodes().lemma_update_frame(from.index, from.generation, self.node(*from));
            assert(self.node(*to) == between.node(*to)) by {
                assert(self.nodes().slots[to.index as int] == between.nodes().slots[to.index as int]);
            }
            assert(between.node(*from) == before.node(*from)) by {
                assert(between.nodes().slots[from.index as int]
                    == before.nodes().slots[from.index as int]);
            }
            assert forall|handle: NodeHandle<T>| #[trigger]
                before.has_node(handle) && handle != *from && handle != *to implies self.node(
                handle,
            ) == before.node(handle) by {
                assert(self.nodes().slots[handle.index as int]
                    == between.nodes().slots[handle.index as int]);
                assert(between.nodes().slots[handle.index as int]
                    == before.nodes().slots[handle.index as int]);
            }
            assert(before.same_nodes(self)) by {
                assert forall|handle: NodeHandle<T>| #[trigger] before.has_node(handle) implies {
                    &&& self.node(handle).wf()
                    &&& self.node(handle).has_subgraph() == before.node(handle).has_subgraph()
                    &&& self.node(handle).has_subgraph() ==> self.node(handle).subgraph_handle()
                        == before.node(handle).subgraph_handle()
                } by {
                    assert(before.linked(handle));
                    if handle != *from && handle != *to {
                        assert(self.node(handle) == before.node(handle));
                    }
                }
            }
            if before.node(*to).is_slotted() {
                lemma_filled_after_fill(before.node(*to).slots(), slot as int, *from);
            } else {
                lemma_push_has(before.node(*to).connected(), *from);
            }
            lemma_push_has(before.node(*from).outputs(), *to);
            assert(before.one_edge_more(self, *from, *to)) by {
                assert forall|handle: NodeHandle<T>, other: NodeHandle<T>|
                    before.has_node(handle) implies (#[trigger] self.node(handle).inputs().contains(
                    other,
                ) <==> before.node(handle).inputs().contains(other) || (handle == *to && other
                    == *from)) by {
                    if handle != *from && handle != *to {
                        assert(self.node(handle) == before.node(handle));
                    }
                }
                assert forall|handle: NodeHandle<T>, other: NodeHandle<T>|
                    before.has_node(handle) implies (#[trigger] self.node(handle).outputs().contains(
                    other,
                ) <==> before.node(handle).outputs().contains(other) || (handle == *from && other
                    == *to)) by {
                    if handle != *from && handle != *to {
                        assert(self.node(handle) == before.node(handle));
                    }
                }
            }
            before.lemma_one_edge_more(self, *from, *to);
            before.lemma_same_subgraphs(self);
        }
    }

    /// Empties a slot of a node. The node that filled it loses the node as an
    /// output, unless it fills another of its slots.
    fn unlink_slot(&mut self, to: &NodeHandle<T>, slot: usize)
        requires
            old(self).wf(),
            old(self).has_node(*to),
            old(self).node(*to).is_slotted(),
            slot < old(self).node(*to).slots().len(),
        ensures
            final(self).wf(),
            old(self).caches_valid() ==> final(self).caches_valid(),
            final(self).subgraphs == old(self).subgraphs,
            old(self).same_nodes(final(self)),
            final(self).node(*to).processor() == old(self).node(*to).processor(),
            final(self).node(*to).outputs() == old(self).node(*to).outputs(),
            final(self).node(*to).cached() == old(self).node(*to).cached(),
            final(self).node(*to).is_slotted(),
            final(self).node(*to).slots() == old(self).node(*to).slots().update(slot as int, None),
            match old(self).node(*to).slots()[slot as int] {
                None => old(self).same_but(final(self), *to, *to) && old(self).same_edges(
                    final(self),
                ),
                Some(from) => {
                    &&& from != *to
                    &&& old(self).has_node(from)
                    &&& old(self).same_but(final(self), from, *to)
                    &&& final(self).node(from).processor() == old(self).node(from).processor()
                    &&& final(self).node(from).input() == old(self).node(from).input()
                    &&& final(self).node(from).cached() == old(self).node(from).cached()
                    &&& if final(self).node(*to).inputs().contains(from) {
                        &&& old(self).same_edges(final(self))
                        &&& final(self).node(from).outputs() == old(self).node(from).outputs()
                    } else {
                        &&& old(self).one_edge_less(final(self), from, *to)
                        &&& final(self).node(from).outputs() == removed_handle(
                            old(self).node(from).outputs(),
                            *to,
                        )
                    }
                },
            },
    {
        let ghost before = *old(self);
        proof {
            before.lemma_wf();
            assert(before.linked(*to));
            lemma_filled_after_clear(before.node(*to).slots(), slot as int);
        }
        let mut filler: Option<NodeHandle<T>> = None;
        let mut still_fed = false;
        match self.nodes.get_mut(to) {
            Ok(node) => {
                filler = node.get_slot(slot);
                let _ = node.disconnect_input_node_slotted(slot);
                if let Some(from) = filler {
                    still_fed = node.has_input(&from);
                }
            },
            Err(_) => {},
        }
        let ghost between = *self;
        proof {
            before.nodes().lemma_update_frame(to.index, to.generation, between.node(*to));
            assert forall|handle: NodeHandle<T>| #[trigger]
                before.has_node(handle) && handle != *to implies between.node(handle)
                == before.node(handle) by {
                assert(between.nodes().slots[handle.index as int]
                    == before.nodes().slots[handle.index as int]);
            }
        }
        match filler {
            None => {
                proof {
                    assert(before.same_nodes(self)) by {
                        assert forall|handle: NodeHandle<T>| #[trigger]
                            before.has_node(handle) implies {
                            &&& self.node(handle).wf()
                            &&& self.node(handle).has_subgraph() == before.node(
                                handle,
                            ).has_subgraph()
                            &&& self.node(handle).has_subgraph() ==> self.node(
                                handle,
                            ).subgraph_handle() == before.node(handle).subgraph_handle()
                        } by {
                            assert(before.linked(handle));
                        }
                    }
                    assert(before.same_edges(self)) by {
                        assert forall|handle: NodeHandle<T>, other: NodeHandle<T>|
                            before.has_node(handle) implies (#[trigger] self.node(
                            handle,
                        ).inputs().contains(other) <==> before.node(handle).inputs().contains(
                            other,
                        )) by {}
                        assert forall|handle: NodeHandle<T>, other: NodeHandle<T>|
                            before.has_node(handle) implies (#[trigger] self.node(
                            handle,
                        ).outputs().contains(other) <==> before.node(handle).outputs().contains(
                            other,
                        )) by {}
                    }
                    before.lemma_no_edge_more(self, *to, *to);
                    before.lemma_same_subgraphs(self);
                }
            },
            Some(from) => {
                proof {
                    crate::graph::input_component::lemma_filled_contains(
                        before.node(*to).slots(),
                        from,
                    );
                    assert(before.node(*to).inputs().contains(from));
                    let k = choose|k: int|
                        0 <= k < before.node(*to).inputs().len() && before.node(*to).inputs()[k]
                            == from;
                    assert(before.has_node(before.node(*to).inputs()[k]));
                    assert(before.node(from).outputs().contains(*to));
                    assert(before.edge(from, *to));
                    let rank = choose|rank: spec_fn(int) -> nat| before.rising(rank);
                    assert(from != *to);
                    assert(before.linked(from));
                    lemma_removed_handle(before.node(from).outputs(), *to);
                }
                if !still_fed {
                    match self.nodes.get_mut(&from) {
                        Ok(node) => {
                            let _ = node.disconnect_output_node(to);
                        },
                        Err(_) => {},
                    }
                }
                proof {
                    between.nodes().lemma_update_frame(
                        from.index,
                        from.generation,
                        self.node(from),
                    );
                    assert(self.node(*to) == between.node(*to)) by {
                        assert(self.nodes().slots[to.index as int]
                            == between.nodes().slots[to.index as int]);
                    }
                    assert forall|handle: NodeHandle<T>| #[trigger]
                        before.has_node(handle) && handle != from && handle != *to implies self.node(
                        handle,
                    ) == before.node(handle) by {
                        assert(self.nodes().slots[handle.index as int]
                            == between.nodes().slots[handle.index as int]);
                    }
                    assert(before.same_nodes(self)) by {
                        assert forall|handle: NodeHandle<T>| #[trigger]
                            before.has_node(handle) implies {
                            &&& self.node(handle).wf()
                            &&& self.node(handle).has_subgraph() == before.node(
                                handle,
                            ).has_subgraph()
                            &&& self.node(handle).has_subgraph() ==> self.node(
                                handle,
                            ).subgraph_handle() == before.node(handle).subgraph_handle()
                        } by {
                            assert(before.linked(handle));
                            if handle != from && handle != *to {
                                assert(self.node(handle) == before.node(handle));
                            }
                        }
                    }
                    if still_fed {
                        assert(self.node(from) == before.node(from));
                        assert(before.same_edges(self)) by {
                            assert forall|handle: NodeHandle<T>, other: NodeHandle<T>|
                                before.has_node(handle) implies (#[trigger] self.node(
                                handle,
                            ).inputs().contains(other) <==> before.node(handle).inputs().contains(
                                other,
                            )) by {
                                if handle != from && handle != *to {
                                    assert(self.node(handle) == before.node(handle));
                                }
                            }
                            assert forall|handle: NodeHandle<T>, other: NodeHandle<T>|
                                before.has_node(handle) implies (#[trigger] self.node(
                                handle,
                            ).outputs().contains(other) <==> before.node(handle).outputs().contains(
                                other,
                            )) by {
                                if handle != from && handle != *to {
                                    assert(self.node(handle) == before.node(handle));
                                }
                            }
                        }
                    } else {
                        assert(before.one_edge_less(self, from, *to)) by {
                            assert forall|handle: NodeHandle<T>, other: NodeHandle<T>|
                                before.has_node(handle) implies (#[trigger] self.node(
                                handle,
                            ).inputs().contains(other) <==> before.node(handle).inputs().contains(
                                other,
                            ) && !(handle == *to && other == from)) by {
                                if handle != from && handle != *to {
                                    assert(self.node(handle) == before.node(handle));
                                }
                            }
                            assert forall|handle: NodeHandle<T>, other: NodeHandle<T>|
                                before.has_node(handle) implies (#[trigger] self.node(
                                handle,
                            ).outputs().contains(other) <==> before.node(handle).outputs().contains(
                                other,
                            ) && !(handle == from && other == *to)) by {
                                if handle != from && handle != *to {
                                    assert(self.node(handle) == before.node(handle));
                                }
                            }
                        }
                    }
                    before.lemma_no_edge_more(self, from, *to);
                    before.lemma_same_subgraphs(self);
                }
            },
        }
    }

    /// Takes an edge away: `from` leaves the inputs of `to`, wherever it is
    /// connected, and `to` leaves the outputs of `from`.
    fn unlink(&mut self, from: &NodeHandle<T>, to: &NodeHandle<T>)
        requires
            old(self).wf(),
            old(self).edge(*from, *to),
        ensures
            final(self).wf(),
            old(self).caches_valid() ==> final(self).caches_valid(),
            final(self).subgraphs == old(self).subgraphs,
            old(self).same_nodes(final(self)),
            old(self).same_but(final(self), *from, *to),
            old(self).one_edge_less(final(self), *from, *to),
            *from != *to,
            final(self).node(*to).processor() == old(self).node(*to).processor(),
            final(self).node(*to).outputs() == old(self).node(*to).outputs(),
            final(self).node(*to).cached() == old(self).node(*to).cached(),
            final(self).node(*to).is_slotted() == old(self).node(*to).is_slotted(),
            final(self).node(*to).zero_allowed() == old(self).node(*to).zero_allowed(),
            final(self).node(*to).slots() == without(old(self).node(*to).slots(), parts(*from)),
            final(self).node(*to).connected() == removed_handle(
                old(self).node(*to).connected(),
                *from,
            ),
            final(self).node(*from).processor() == old(self).node(*from).processor(),
            final(self).node(*from).input() == old(self).node(*from).input(),
            final(self).node(*from).cached() == old(self).node(*from).cached(),
            final(self).node(*from).outputs() == removed_handle(
                old(self).node(*from).outputs(),
                *to,
            ),
    {
        let ghost before = *old(self);
        proof {
            before.lemma_wf();
            assert(before.linked(*to));
            assert(before.linked(*from));
            let rank = choose|rank: spec_fn(int) -> nat| before.rising(rank);
            assert(*from != *to);
        }
        match self.nodes.get_mut(to) {
            Ok(node) => {
                let _ = node.disconnect_input_node(from);
            },
            Err(_) => {},
        }
        let ghost between = *self;
        proof {
            before.nodes().lemma_update_frame(to.index, to.generation, between.node(*to));
            assert(between.node(*from) == before.node(*from)) by {
                assert(between.nodes().slots[from.index as int]
                    == before.nodes().slots[from.index as int]);
            }
        }
        match self.nodes.get_mut(from) {
            Ok(node) => {
                let _ = node.disconnect_output_node(to);
            },
            Err(_) => {},
        }
        proof {
            between.nodes().lemma_update_frame(from.index, from.generation, self.node(*from));
            assert(self.node(*to) == between.node(*to)) by {
                assert(self.nodes().slots[to.index as int] == between.nodes().slots[to.index as int]);
            }
            assert forall|handle: NodeHandle<T>| #[trigger]
                before.has_node(handle) && handle != *from && handle != *to implies self.node(
                handle,
            ) == before.node(handle) by {
                assert(self.nodes().slots[handle.index as int]
                    == between.nodes().slots[handle.index as int]);
                assert(between.nodes().slots[handle.index as int]
                    == before.nodes().slots[handle.index as int]);
            }
            assert(before.same_nodes(self)) by {
                assert forall|handle: NodeHandle<T>| #[trigger] before.has_node(handle) implies {
                    &&& self.node(handle).wf()
                    &&& self.node(handle).has_subgraph() == before.node(handle).has_subgraph()
                    &&& self.node(handle).has_subgraph() ==> self.node(handle).subgraph_handle()
                        == before.node(handle).subgraph_handle()
                } by {
                    assert(before.linked(handle));
                    if handle != *from && handle != *to {
                        assert(self.node(handle) == before.node(handle));
                    }
                }
            }
            assert(before.one_edge_less(self, *from, *to)) by {
                assert forall|handle: NodeHandle<T>, other: NodeHandle<T>|
                    before.has_node(handle) implies (#[trigger] self.node(handle).inputs().contains(
                    other,
                ) <==> before.node(handle).inputs().contains(other) && !(handle == *to && other
                    == *from)) by {
                    if handle != *from && handle != *to {
                        assert(self.node(handle) == before.node(handle));
                    }
                }
                assert forall|handle: NodeHandle<T>, other: NodeHandle<T>|
                    before.has_node(handle) implies (#[trigger] self.node(handle).outputs().contains(
                    other,
                ) <==> before.node(handle).outputs().contains(other) && !(handle == *from && other
                    == *to)) by {
                    if handle != *from && handle != *to {
                        assert(self.node(handle) == before.node(handle));
                    }
                }
            }
            before.lemma_no_edge_more(self, *from, *to);
            before.lemma_same_subgraphs(self);
        }
    }

    /// A graph without an edge or a node that `self` does not have has no
    /// walk that `self` does not have.
    proof fn lemma_fewer_walks(&self, later: &Graph<T, P, S>)
        requires
            forall|handle: NodeHandle<T>| #[trigger] later.has_node(handle) ==> self.has_node(handle),
            forall|from: NodeHandle<T>, to: NodeHandle<T>| #[trigger]
                later.edge(from, to) ==> self.edge(from, to),
        ensures
            forall|from: NodeHandle<T>, to: NodeHandle<T>| #[trigger]
                later.reaches(from, to) ==> self.reaches(from, to),
    {
        assert forall|from: NodeHandle<T>, to: NodeHandle<T>| #[trigger]
            later.reaches(from, to) implies self.reaches(from, to) by {
            let path = choose|path: Seq<NodeHandle<T>>|
                #![trigger later.is_path(path)]
                later.is_path(path) && path[0] == from && path.last() == to;
            assert forall|i: int|
                #![trigger path[i]]
                0 <= i < path.len() - 1 implies self.edge(path[i], path[i + 1]) by {
                assert(later.edge(path[i], path[i + 1]));
            }
            assert(self.is_path(path));
        }
    }

    /// The node that an edge into a slot pushes out of the inputs of `to`:
    /// the one that fills the slot, unless it is `from` or fills another
    /// slot too.
    pub open spec fn displaced(&self, from: NodeHandle<T>, to: NodeHandle<T>, slot: usize) -> Option<
        NodeHandle<T>,
    > {
        let slots = self.node(to).slots();
        if self.node(to).is_slotted() && slot < slots.len() && slots[slot as int] is Some
            && slots[slot as int] != Some(from) && forall|j: int|
            0 <= j < slots.len() && j != slot ==> #[trigger] slots[j] != slots[slot as int] {
            slots[slot as int]
        } else {
            None
        }
    }

    /// The node that loses its edge to `to` when a slot of `to` is filled
    /// anew: the one that fills the slot and no other slot of `to`.
    pub open spec fn pushed_out(&self, to: NodeHandle<T>, slot: usize) -> Option<NodeHandle<T>> {
        let slots = self.node(to).slots();
        if self.node(to).is_slotted() && slot < slots.len() && slots[slot as int] is Some
            && forall|j: int|
            0 <= j < slots.len() && j != slot ==> #[trigger] slots[j] != slots[slot as int] {
            slots[slot as int]
        } else {
            None
        }
    }

    /// The outputs of a node after `from` was connected to a slot of `to`:
    /// the node that is pushed out of the slot loses `to`, and `from` has
    /// `to` as its last output unless it has it already.
    pub open spec fn outputs_after(
        &self,
        handle: NodeHandle<T>,
        from: NodeHandle<T>,
        to: NodeHandle<T>,
        slot: usize,
    ) -> Seq<NodeHandle<T>> {
        let kept = if self.pushed_out(to, slot) == Some(handle) {
            removed_handle(self.node(handle).outputs(), to)
        } else {
            self.node(handle).outputs()
        };
        if handle == from && !kept.contains(to) {
            kept.push(to)
        } else {
            kept
        }
    }

    /// `later` is `self` with `from` connected to `to`, into the slot where
    /// `to` has slots: every node has its processor and its kind of input;
    /// every node but `to` has its inputs; `to` has `from` in the slot, or
    /// as its last input unless it is an input already; the outputs are as
    /// `outputs_after` says; and what `to` and the nodes after it had
    /// cached is given up.
    pub open spec fn connected_by(
        &self,
        later: &Graph<T, P, S>,
        from: NodeHandle<T>,
        to: NodeHandle<T>,
        slot: usize,
    ) -> bool {
        &&& later.nodes().same_layout(self.nodes())
        &&& later.subgraphs() == self.subgraphs()
        &&& later.output() == self.output()
        &&& later.exposed() == self.exposed()
        &&& self.same_nodes(later)
        &&& later.edge(from, to)
        &&& self.node(to).is_slotted() ==> later.node(to).slots() == self.node(to).slots().update(
            slot as int,
            Some(from),
        )
        &&& !self.node(to).is_slotted() ==> later.node(to).connected() == if self.node(
            to,
        ).connected().contains(from) {
            self.node(to).connected()
        } else {
            self.node(to).connected().push(from)
        }
        &&& forall|handle: NodeHandle<T>| #[trigger]
            self.has_node(handle) ==> {
                &&& later.node(handle).processor() == self.node(handle).processor()
                &&& later.node(handle).is_slotted() == self.node(handle).is_slotted()
                &&& later.node(handle).zero_allowed() == self.node(handle).zero_allowed()
                &&& handle != to ==> later.node(handle).input() == self.node(handle).input()
                &&& later.node(handle).outputs() == self.outputs_after(handle, from, to, slot)
                &&& later.node(handle).cached() == if later.reaches(to, handle) {
                    None
                } else {
                    self.node(handle).cached()
                }
            }
        &&& forall|handle: NodeHandle<T>, other: NodeHandle<T>|
            self.has_node(handle) ==> (#[trigger] later.node(handle).outputs().contains(other) <==> (
            self.node(handle).outputs().contains(other) && !(other == to && self.displaced(
                from,
                to,
                slot,
            ) == Some(handle))) || (handle == from && other == to))
        &&& forall|handle: NodeHandle<T>, other: NodeHandle<T>|
            self.has_node(handle) ==> (#[trigger] later.node(handle).inputs().contains(other) <==> (
            self.node(handle).inputs().contains(other) && !(handle == to && self.displaced(
                from,
                to,
                slot,
            ) == Some(other))) || (handle == to && other == from))
    }

    /// Connects the output of `from` to `to`: to a multiple input, where the
    /// slot number means nothing, or into a slot, in place of what is
    /// there. The edge is refused where a walk leads from `to` to `from`.
    /// What `to` and the nodes after it have cached is given up.
    pub fn connect_to_slot(&mut self, from: &NodeHandle<T>, to: &NodeHandle<T>, slot: usize) -> (result:
        Result<(), HardeenError>)
        requires
            old(self).wf(),
        ensures
            final(self).wf(),
            old(self).caches_valid() ==> final(self).caches_valid(),
            result == if !old(self).has_node(*from) || !old(self).has_node(*to) {
                Err::<(), _>(HardeenError::InvalidHandle)
            } else if old(self).reaches(*to, *from) {
                Err::<(), _>(HardeenError::CycleWouldBeIntroduced)
            } else if old(self).node(*to).is_slotted() && slot >= old(self).node(*to).slots().len() {
                Err::<(), _>(HardeenError::InvalidInputSlotNumber)
            } else {
                Ok::<(), HardeenError>(())
            },
            result is Err ==> *final(self) == *old(self),
            result is Ok ==> old(self).connected_by(final(self), *from, *to, slot),
    {
        let ghost before = *old(self);
        proof {
            before.lemma_wf();
        }
        if !self.is_handle_valid(from) || !self.is_handle_valid(to) {
            return Err(HardeenError::InvalidHandle);
        }
        let ghost down = choose|rank: spec_fn(int) -> nat| before.falling(rank);
        if self.path_exists(to, from, Ghost(down)) {
            return Err(HardeenError::CycleWouldBeIntroduced);
        }
        let slots = match self.nodes.get(to) {
            Ok(node) => node.get_number_of_slots(),
            Err(_) => None,
        };
        if let Some(number) = slots {
            if slot >= number {
                return Err(HardeenError::InvalidInputSlotNumber);
            }
            self.unlink_slot(to, slot);
        }
        let ghost emptied = *self;
        proof {
            if before.node(*to).is_slotted() {
                assert forall|a: NodeHandle<T>, b: NodeHandle<T>| #[trigger]
                    emptied.edge(a, b) implies before.edge(a, b) by {
                    assert(emptied.node(a).outputs().contains(b));
                }
                before.lemma_fewer_walks(&emptied);
                if emptied.reaches(*to, *from) {
                    assert(before.reaches(*to, *from));
                }
                crate::graph::input_component::lemma_filled_contains(
                    emptied.node(*to).slots(),
                    arbitrary(),
                );
            }
        }
        self.link(from, to, slot);
        let ghost linked = *self;
        self.invalidate_cache(to);
        proof {
            linked.lemma_same_walks(self);
            lemma_push_has(emptied.node(*from).outputs(), *to);
            assert(linked.node(*from).outputs().contains(*to));
            assert(linked.edge(*from, *to));
            assert(before.same_nodes(self)) by {
                assert forall|handle: NodeHandle<T>| #[trigger] before.has_node(handle) implies {
                    &&& self.node(handle).wf()
                    &&& self.node(handle).has_subgraph() == before.node(handle).has_subgraph()
                    &&& self.node(handle).has_subgraph() ==> self.node(handle).subgraph_handle()
                        == before.node(handle).subgraph_handle()
                } by {
                    assert(emptied.has_node(handle));
                    assert(linked.has_node(handle));
                    self.lemma_wf();
                    assert(self.linked(handle));
                }
            }
            let gone = before.displaced(*from, *to, slot);
            if before.node(*to).is_slotted() {
                let old_slots = before.node(*to).slots();
                match old_slots[slot as int] {
                    Some(previous) => {
                        crate::graph::input_component::lemma_filled_contains(
                            emptied.node(*to).slots(),
                            previous,
                        );
                        if emptied.node(*to).inputs().contains(previous) {
                            let j = choose|j: int|
                                0 <= j < emptied.node(*to).slots().len() && #[trigger] emptied.node(
                                    *to,
                                ).slots()[j] == Some(previous);
                            assert(old_slots[j] == Some(previous));
                            assert(j != slot);
                        } else {
                            assert forall|j: int|
                                0 <= j < old_slots.len() && j != slot implies #[trigger] old_slots[j]
                                != old_slots[slot as int] by {
                                if old_slots[j] == Some(previous) {
                                    assert(emptied.node(*to).slots()[j] == Some(previous));
                                }
                            }
                        }
                    },
                    None => {},
                }
            }
            assert forall|handle: NodeHandle<T>, other: NodeHandle<T>|
                before.has_node(handle) implies (#[trigger] self.node(handle).outputs().contains(
                other,
            ) <==> (before.node(handle).outputs().contains(other) && !(other == *to && gone
                == Some(handle))) || (handle == *from && other == *to)) by {
                assert(emptied.has_node(handle));
                assert(linked.has_node(handle));
                assert(self.node(handle).outputs() == linked.node(handle).outputs());
                assert(linked.node(handle).outputs().contains(other) <==> emptied.node(
                    handle,
                ).outputs().contains(other) || (handle == *from && other == *to));
                if before.node(*to).is_slotted() {
                    assert(before.linked(handle));
                } else {
                    assert(emptied.node(handle) == before.node(handle));
                }
            }
            assert forall|handle: NodeHandle<T>, other: NodeHandle<T>|
                before.has_node(handle) implies (#[trigger] self.node(handle).inputs().contains(
                other,
            ) <==> (before.node(handle).inputs().contains(other) && !(handle == *to && gone
                == Some(other))) || (handle == *to && other == *from)) by {
                assert(emptied.has_node(handle));
                assert(linked.has_node(handle));
                assert(self.node(handle).input() == linked.node(handle).input());
                assert(linked.node(handle).inputs().contains(other) <==> emptied.node(
                    handle,
                ).inputs().contains(other) || (handle == *to && other == *from));
                if !before.node(*to).is_slotted() {
                    assert(emptied.node(handle) == before.node(handle));
                }
            }
            assert forall|handle: NodeHandle<T>| #[trigger]
                before.has_node(handle) implies self.node(handle).cached() == if self.reaches(
                *to,
                handle,
            ) {
                None
            } else {
                before.node(handle).cached()
            } by {
                assert(emptied.has_node(handle));
                assert(linked.has_node(handle));
                assert(linked.node(handle).cached() == emptied.node(handle).cached());
                assert(emptied.node(handle).cached() == before.node(handle).cached());
            }
            assert forall|handle: NodeHandle<T>| #[trigger] before.has_node(handle) implies {
                &&& self.node(handle).processor() == before.node(handle).processor()
                &&& self.node(handle).is_slotted() == before.node(handle).is_slotted()
                &&& self.node(handle).zero_allowed() == before.node(handle).zero_allowed()
                &&& handle != *to ==> self.node(handle).input() == before.node(handle).input()
                &&& self.node(handle).outputs() == before.outputs_after(handle, *from, *to, slot)
            } by {
                assert(emptied.has_node(handle));
                assert(linked.has_node(handle));
                assert(self.node(handle).processor() == linked.node(handle).processor());
                assert(self.node(handle).input() == linked.node(handle).input());
                assert(self.node(handle).outputs() == linked.node(handle).outputs());
                if handle != *from && handle != *to {
                    assert(linked.node(handle) == emptied.node(handle));
                }
                if before.node(*to).is_slotted() {
                    match before.node(*to).slots()[slot as int] {
                        Some(previous) => {
                            if handle != previous && handle != *to {
                                assert(emptied.node(handle) == before.node(handle));
                            }
                        },
                        None => {
                            if handle != *to {
                                assert(emptied.node(handle) == before.node(handle));
                            }
                        },
                    }
                } else {
                    assert(emptied.node(handle) == before.node(handle));
                }
            }
            if before.node(*to).is_slotted() {
                assert(self.node(*to).slots() =~= before.node(*to).slots().update(
                    slot as int,
                    Some(*from),
                ));
            }
            assert(before.connected_by(&*self, *from, *to, slot));
        }
        Ok(())
    }

    /// Connects the output of `from` to `to`: to a multiple input, or into
    /// the first slot.
    pub fn connect(&mut self, from: &NodeHandle<T>, to: &NodeHandle<T>) -> (result: Result<
        (),
        HardeenError,
    >)
        requires
            old(self).wf(),
        ensures
            final(self).wf(),
            old(self).caches_valid() ==> final(self).caches_valid(),
            result == if !old(self).has_node(*from) || !old(self).has_node(*to) {
                Err::<(), _>(HardeenError::InvalidHandle)
            } else if old(self).reaches(*to, *from) {
                Err::<(), _>(HardeenError::CycleWouldBeIntroduced)
            } else if old(self).node(*to).is_slotted() && old(self).node(*to).slots().len() == 0 {
                Err::<(), _>(HardeenError::InvalidInputSlotNumber)
            } else {
                Ok::<(), HardeenError>(())
            },
            result is Err ==> *final(self) == *old(self),
            result is Ok ==> old(self).connected_by(final(self), *from, *to, 0),
    {
        self.connect_to_slot(from, to, 0)
    }

    /// After `later`, only caches were given up: the nodes and edges of
    /// `self` are those of `later`, as they are those of `earlier`.
    proof fn lemma_then_caches(
        &self,
        earlier: &Graph<T, P, S>,
        later: &Graph<T, P, S>,
        from: NodeHandle<T>,
        to: NodeHandle<T>,
    )
        requires
            earlier.same_nodes(self),
            self.same_but_caches(later),
            later.wf(),
        ensures
            earlier.same_nodes(later),
            earlier.same_edges(self) ==> earlier.same_edges(later),
            earlier.one_edge_less(self, from, to) ==> earlier.one_edge_less(later, from, to),
            earlier.one_edge_more(self, from, to) ==> earlier.one_edge_more(later, from, to),
    {
        later.lemma_wf();
        assert forall|handle: NodeHandle<T>| #[trigger] earlier.has_node(handle) implies {
            &&& later.node(handle).wf()
            &&& later.node(handle).has_subgraph() == earlier.node(handle).has_subgraph()
            &&& later.node(handle).has_subgraph() ==> later.node(handle).subgraph_handle()
                == earlier.node(handle).subgraph_handle()
        } by {
            assert(self.has_node(handle));
            assert(later.has_node(handle));
            assert(later.linked(handle));
        }
        assert forall|handle: NodeHandle<T>| #[trigger]
            later.has_node(handle) <==> earlier.has_node(handle) by {
            assert(self.has_node(handle) <==> earlier.has_node(handle));
        }
        assert forall|handle: NodeHandle<T>, other: NodeHandle<T>|
            earlier.has_node(handle) implies #[trigger] later.node(handle).inputs().contains(other)
            == self.node(handle).inputs().contains(other) by {
            assert(self.has_node(handle));
        }
        assert forall|handle: NodeHandle<T>, other: NodeHandle<T>|
            earlier.has_node(handle) implies #[trigger] later.node(handle).outputs().contains(
            other,
        ) == self.node(handle).outputs().contains(other) by {
            assert(self.has_node(handle));
        }
    }

    /// Takes the edge from `from` to `to` away, at every slot it leads to.
    /// What `to` and the nodes after it have cached is given up.
    pub fn disconnect(&mut self, from: &NodeHandle<T>, to: &NodeHandle<T>) -> (result: Result<
        (),
        HardeenError,
    >)
        requires
            old(self).wf(),
        ensures
            final(self).wf(),
            old(self).caches_valid() ==> final(self).caches_valid(),
            result == if !old(self).has_node(*from) || !old(self).has_node(*to) {
                Err::<(), _>(HardeenError::InvalidHandle)
            } else if !old(self).node(*from).outputs().contains(*to) {
                Err::<(), _>(HardeenError::NodeOutputHandleInvalid)
            } else {
                Ok::<(), HardeenError>(())
            },
            result is Err ==> *final(self) == *old(self),
            result is Ok ==> {
                &&& final(self).nodes().same_layout(old(self).nodes())
                &&& final(self).subgraphs() == old(self).subgraphs()
                &&& final(self).output() == old(self).output()
                &&& final(self).exposed() == old(self).exposed()
                &&& old(self).same_nodes(final(self))
                &&& old(self).one_edge_less(final(self), *from, *to)
                &&& final(self).node(*to).slots() == without(
                    old(self).node(*to).slots(),
                    parts(*from),
                )
                &&& final(self).node(*to).connected() == removed_handle(
                    old(self).node(*to).connected(),
                    *from,
                )
                &&& final(self).node(*from).outputs() == removed_handle(
                    old(self).node(*from).outputs(),
                    *to,
                )
                &&& forall|handle: NodeHandle<T>| #[trigger]
                    old(self).has_node(handle) ==> final(self).node(handle).cached() == if final(self).reaches(*to, handle) {
                        None
                    } else {
                        old(self).node(handle).cached()
                    }
            },
    {
        let ghost before = *old(self);
        proof {
            before.lemma_wf();
        }
        if !self.is_handle_valid(from) || !self.is_handle_valid(to) {
            return Err(HardeenError::InvalidHandle);
        }
        let known = match self.nodes.get(from) {
            Ok(node) => node.has_output(to),
            Err(_) => false,
        };
        if !known {
            return Err(HardeenError::NodeOutputHandleInvalid);
        }
        self.unlink(from, to);
        let ghost unlinked = *self;
        self.invalidate_cache(to);
        proof {
            unlinked.lemma_same_walks(self);
            unlinked.lemma_then_caches(&before, self, *from, *to);
            assert forall|handle: NodeHandle<T>| #[trigger]
                before.has_node(handle) implies self.node(handle).cached() == if self.reaches(
                *to,
                handle,
            ) {
                None
            } else {
                before.node(handle).cached()
            } by {
                assert(unlinked.has_node(handle));
                if handle != *from && handle != *to {
                    assert(unlinked.node(handle) == before.node(handle));
                }
            }
            assert(unlinked.has_node(*to));
            assert(unlinked.has_node(*from));
        }
        Ok(())
    }

    /// Takes the edge from `from` into one slot of `to` away. What `to` and
    /// the nodes after it have cached is given up.
    pub fn disconnect_from_slot(&mut self, from: &NodeHandle<T>, to: &NodeHandle<T>, slot: usize) -> (result:
        Result<(), HardeenError>)
        requires
            old(self).wf(),
        ensures
            final(self).wf(),
            old(self).caches_valid() ==> final(self).caches_valid(),
            result == if !old(self).has_node(*from) || !old(self).has_node(*to) {
                Err::<(), _>(HardeenError::InvalidHandle)
            } else if !old(self).node(*from).outputs().contains(*to) {
                Err::<(), _>(HardeenError::NodeOutputHandleInvalid)
            } else if !old(self).node(*to).is_slotted() {
                Err::<(), _>(HardeenError::NodeInputTypeMismatch)
            } else if slot >= old(self).node(*to).slots().len() {
                Err::<(), _>(HardeenError::InvalidInputSlotNumber)
            } else if old(self).node(*to).slots()[slot as int] != Some(*from) {
                Err::<(), _>(HardeenError::NodeOutputHandleInvalid)
            } else {
                Ok::<(), HardeenError>(())
            },
            result is Err ==> *final(self) == *old(self),
            result is Ok ==> {
                &&& final(self).nodes().same_layout(old(self).nodes())
                &&& final(self).subgraphs() == old(self).subgraphs()
                &&& final(self).output() == old(self).output()
                &&& final(self).exposed() == old(self).exposed()
                &&& old(self).same_nodes(final(self))
                &&& final(self).node(*to).slots() == old(self).node(*to).slots().update(
                    slot as int,
                    None,
                )
                &&& if final(self).node(*to).inputs().contains(*from) {
                    old(self).same_edges(final(self))
                } else {
                    old(self).one_edge_less(final(self), *from, *to)
                }
                &&& forall|handle: NodeHandle<T>| #[trigger]
                    old(self).has_node(handle) ==> final(self).node(handle).cached() == if final(self).reaches(*to, handle) {
                        None
                    } else {
                        old(self).node(handle).cached()
                    }
            },
    {
        let ghost before = *old(self);
        proof {
            before.lemma_wf();
        }
        if !self.is_handle_valid(from) || !self.is_handle_valid(to) {
            return Err(HardeenError::InvalidHandle);
        }
        let known = match self.nodes.get(from) {
            Ok(node) => node.has_output(to),
            Err(_) => false,
        };
        if !known {
            return Err(HardeenError::NodeOutputHandleInvalid);
        }
        let mut slots: Option<usize> = None;
        let mut filler: Option<NodeHandle<T>> = None;
        match self.nodes.get(to) {
            Ok(node) => {
                slots = node.get_number_of_slots();
                filler = node.get_slot(slot);
            },
            Err(_) => {},
        }
        match slots {
            None => {
                return Err(HardeenError::NodeInputTypeMismatch);
            },
            Some(number) => {
                if slot >= number {
                    return Err(HardeenError::InvalidInputSlotNumber);
                }
            },
        }
        match filler {
            None => {
                return Err(HardeenError::NodeOutputHandleInvalid);
            },
            Some(found) => {
                if !(found.index == from.index && found.generation == from.generation) {
                    return Err(HardeenError::NodeOutputHandleInvalid);
                }
            },
        }
        self.unlink_slot(to, slot);
        let ghost unlinked = *self;
        self.invalidate_cache(to);
        proof {
            unlinked.lemma_same_walks(self);
            unlinked.lemma_then_caches(&before, self, *from, *to);
            assert(unlinked.has_node(*to));
            assert(self.node(*to).input() == unlinked.node(*to).input());
            assert forall|handle: NodeHandle<T>| #[trigger]
                before.has_node(handle) implies self.node(handle).cached() == if self.reaches(
                *to,
                handle,
            ) {
                None
            } else {
                before.node(handle).cached()
            } by {
                assert(unlinked.has_node(handle));
                if handle != *from && handle != *to {
                    assert(unlinked.node(handle) == before.node(handle));
                }
            }
        }
        Ok(())
    }

    /// A graph in order has its own nodes.
    proof fn lemma_same_nodes_itself(&self)
        requires
            self.wf(),
        ensures
            self.same_nodes(self),
    {
        self.lemma_wf();
        assert forall|handle: NodeHandle<T>| #[trigger] self.has_node(handle) implies self.node(
            handle,
        ).wf() by {
            assert(self.linked(handle));
        }
    }

    /// Every node of `self` has in `later` the processor and the kind of
    /// input that it has in `self`.
    pub open spec fn same_processors(&self, later: &Graph<T, P, S>) -> bool {
        forall|handle: NodeHandle<T>| #[trigger]
            self.has_node(handle) ==> {
                &&& later.node(handle).processor() == self.node(handle).processor()
                &&& later.node(handle).is_slotted() == self.node(handle).is_slotted()
                &&& later.node(handle).zero_allowed() == self.node(handle).zero_allowed()
            }
    }

    /// What is cached stays valid where every node has cached nothing, or
    /// what it had cached.
    proof fn lemma_caches_kept(&self, later: &Graph<T, P, S>)
        requires
            forall|handle: NodeHandle<T>| #[trigger]
                later.has_node(handle) ==> later.node(handle).cached() is None || (self.has_node(
                    handle,
                ) && later.node(handle).cached() == self.node(handle).cached()),
        ensures
            self.caches_valid() ==> later.caches_valid(),
    {
        if self.caches_valid() {
            assert forall|handle: NodeHandle<T>| #[trigger]
                later.has_node(handle) && later.node(handle).cached() is Some implies later.node(
                handle,
            ).cached()->0.valid() by {
                assert(self.has_node(handle));
            }
        }
    }

    /// The caches of `later` are those of `self`.
    pub open spec fn same_caches(&self, later: &Graph<T, P, S>) -> bool {
        forall|handle: NodeHandle<T>| #[trigger]
            self.has_node(handle) ==> later.node(handle).cached() == self.node(handle).cached()
    }

    /// Takes away every edge that leads to a node.
    fn unlink_inputs(&mut self, handle: &NodeHandle<T>)
        requires
            old(self).wf(),
            old(self).has_node(*handle),
        ensures
            final(self).wf(),
            old(self).caches_valid() ==> final(self).caches_valid(),
            final(self).subgraphs == old(self).subgraphs,
            final(self).nodes().same_layout(old(self).nodes()),
            final(self).output() == old(self).output(),
            final(self).exposed() == old(self).exposed(),
            old(self).same_nodes(final(self)),
            old(self).same_caches(final(self)),
            old(self).same_processors(final(self)),
            forall|node: NodeHandle<T>, other: NodeHandle<T>|
                old(self).has_node(node) ==> (#[trigger] final(self).node(node).outputs().contains(
                    other,
                ) <==> old(self).node(node).outputs().contains(other) && other != *handle),
            forall|node: NodeHandle<T>, other: NodeHandle<T>|
                old(self).has_node(node) ==> (#[trigger] final(self).node(node).inputs().contains(
                    other,
                ) <==> old(self).node(node).inputs().contains(other) && node != *handle),
    {
        let ghost before = *old(self);
        proof {
            before.lemma_wf();
            assert(before.linked(*handle));
        }
        let inputs = match self.nodes.get(handle) {
            Ok(node) => node.get_all_input_handles(),
            Err(_) => Vec::new(),
        };
        proof {
            before.lemma_same_nodes_itself();
        }
        let mut current: usize = 0;
        let length = inputs.len();
        while current < length
            invariant
                current <= length,
                length == inputs@.len(),
                inputs@ == before.node(*handle).inputs(),
                before.wf(),
                before.has_node(*handle),
                self.wf(),
                self.subgraphs == before.subgraphs,
                self.nodes().same_layout(before.nodes()),
                self.output() == before.output(),
                self.exposed() == before.exposed(),
                before.same_nodes(self),
                before.same_caches(self),
                before.same_processors(self),
                forall|node: NodeHandle<T>, other: NodeHandle<T>|
                    before.has_node(node) ==> (#[trigger] self.node(node).outputs().contains(other)
                        <==> before.node(node).outputs().contains(other) && !(other == *handle
                        && inputs@.take(current as int).contains(node))),
                forall|node: NodeHandle<T>, other: NodeHandle<T>|
                    before.has_node(node) ==> (#[trigger] self.node(node).inputs().contains(other)
                        <==> before.node(node).inputs().contains(other) && !(node == *handle
                        && inputs@.take(current as int).contains(other))),
            decreases length - current,
        {
            let from = inputs[current];
            let ghost previous = *self;
            let ghost done = inputs@.take(current as int);
            let ghost next = inputs@.take(current + 1);
            proof {
                assert(next =~= done.push(from));
                lemma_push_has(done, from);
                before.lemma_wf();
                assert(before.linked(*handle));
                assert(before.has_node(before.node(*handle).inputs()[current as int]));
                assert(previous.has_node(from));
                previous.lemma_wf();
            }
            let known = match self.nodes.get(&from) {
                Ok(node) => node.has_output(handle),
                Err(_) => false,
            };
            if known {
                self.unlink(&from, handle);
            }
            proof {
                assert(before.same_nodes(self)) by {
                    assert forall|node: NodeHandle<T>| #[trigger] before.has_node(node) implies {
                        &&& self.node(node).wf()
                        &&& self.node(node).has_subgraph() == before.node(node).has_subgraph()
                        &&& self.node(node).has_subgraph() ==> self.node(node).subgraph_handle()
                            == before.node(node).subgraph_handle()
                    } by {
                        assert(previous.has_node(node));
                    }
                }
                assert(before.same_caches(self)) by {
                    assert forall|node: NodeHandle<T>| #[trigger] before.has_node(node) implies self.node(
                        node,
                    ).cached() == before.node(node).cached() by {
                        assert(previous.has_node(node));
                        if known && node != from && node != *handle {
                            assert(self.node(node) == previous.node(node));
                        }
                    }
                }
                assert(before.same_processors(self)) by {
                    assert forall|node: NodeHandle<T>| #[trigger] before.has_node(node) implies {
                        &&& self.node(node).processor() == before.node(node).processor()
                        &&& self.node(node).is_slotted() == before.node(node).is_slotted()
                        &&& self.node(node).zero_allowed() == before.node(node).zero_allowed()
                    } by {
                        assert(previous.has_node(node));
                        if known && node != from && node != *handle {
                            assert(self.node(node) == previous.node(node));
                        }
                    }
                }
                assert forall|node: NodeHandle<T>, other: NodeHandle<T>|
                    before.has_node(node) implies (#[trigger] self.node(node).outputs().contains(
                    other,
                ) <==> before.node(node).outputs().contains(other) && !(other == *handle
                    && next.contains(node))) by {
                    assert(previous.has_node(node));
                    if !known && node == from && other == *handle {
                        assert(!previous.node(from).outputs().contains(*handle));
                    }
                }
                assert forall|node: NodeHandle<T>, other: NodeHandle<T>|
                    before.has_node(node) implies (#[trigger] self.node(node).inputs().contains(
                    other,
                ) <==> before.node(node).inputs().contains(other) && !(node == *handle
                    && next.contains(other))) by {
                    assert(previous.has_node(node));
                    if !known && node == *handle && other == from {
                        assert(previous.linked(*handle));
                        if previous.node(*handle).inputs().contains(from) {
                            let k = choose|k: int|
                                0 <= k < previous.node(*handle).inputs().len() && previous.node(
                                    *handle,
                                ).inputs()[k] == from;
                            assert(previous.has_node(previous.node(*handle).inputs()[k]));
                        }
                    }
                }
            }
            current += 1;
        }
        proof {
            assert(inputs@.take(length as int) =~= inputs@);
            assert forall|node: NodeHandle<T>, other: NodeHandle<T>|
                before.has_node(node) implies (#[trigger] self.node(node).outputs().contains(
                other,
            ) <==> before.node(node).outputs().contains(other) && other != *handle) by {
                if before.node(node).outputs().contains(other) && other == *handle {
                    assert(before.linked(node));
                    let k = choose|k: int|
                        0 <= k < before.node(node).outputs().len() && before.node(node).outputs()[k]
                            == other;
                    assert(before.has_node(before.node(node).outputs()[k]));
                    assert(before.node(*handle).inputs().contains(node));
                }
            }
        }
    }

    /// Takes away every edge that leads from a node.
    fn unlink_outputs(&mut self, handle: &NodeHandle<T>)
        requires
            old(self).wf(),
            old(self).has_node(*handle),
        ensures
            final(self).wf(),
            old(self).caches_valid() ==> final(self).caches_valid(),
            final(self).subgraphs == old(self).subgraphs,
            final(self).nodes().same_layout(old(self).nodes()),
            final(self).output() == old(self).output(),
            final(self).exposed() == old(self).exposed(),
            old(self).same_nodes(final(self)),
            old(self).same_caches(final(self)),
            old(self).same_processors(final(self)),
            forall|node: NodeHandle<T>, other: NodeHandle<T>|
                old(self).has_node(node) ==> (#[trigger] final(self).node(node).outputs().contains(
                    other,
                ) <==> old(self).node(node).outputs().contains(other) && node != *handle),
            forall|node: NodeHandle<T>, other: NodeHandle<T>|
                old(self).has_node(node) ==> (#[trigger] final(self).node(node).inputs().contains(
                    other,
                ) <==> old(self).node(node).inputs().contains(other) && other != *handle),
    {
        let ghost before = *old(self);
        proof {
            before.lemma_wf();
            assert(before.linked(*handle));
        }
        let outputs = match self.nodes.get(handle) {
            Ok(node) => node.get_all_outputs(),
            Err(_) => Vec::new(),
        };
        proof {
            before.lemma_same_nodes_itself();
        }
        let mut current: usize = 0;
        let length = outputs.len();
        while current < length
            invariant
                current <= length,
                length == outputs@.len(),
                outputs@ == before.node(*handle).outputs(),
                before.wf(),
                before.has_node(*handle),
                self.wf(),
                self.subgraphs == before.subgraphs,
                self.nodes().same_layout(before.nodes()),
                self.output() == before.output(),
                self.exposed() == before.exposed(),
                before.same_nodes(self),
                before.same_caches(self),
                before.same_processors(self),
                forall|node: NodeHandle<T>, other: NodeHandle<T>|
                    before.has_node(node) ==> (#[trigger] self.node(node).outputs().contains(other)
                        <==> before.node(node).outputs().contains(other) && !(node == *handle
                        && outputs@.take(current as int).contains(other))),
                forall|node: NodeHandle<T>, other: NodeHandle<T>|
                    before.has_node(node) ==> (#[trigger] self.node(node).inputs().contains(other)
                        <==> before.node(node).inputs().contains(other) && !(other == *handle
                        && outputs@.take(current as int).contains(node))),
            decreases length - current,
        {
            let to = outputs[current];
            let ghost previous = *self;
            let ghost done = outputs@.take(current as int);
            let ghost next = outputs@.take(current + 1);
            proof {
                assert(next =~= done.push(to));
                lemma_push_has(done, to);
                before.lemma_wf();
                assert(before.linked(*handle));
                assert(before.has_node(before.node(*handle).outputs()[current as int]));
                assert(previous.has_node(to));
                previous.lemma_wf();
            }
            let known = match self.nodes.get(handle) {
                Ok(node) => node.has_output(&to),
                Err(_) => false,
            };
            if known {
                self.unlink(handle, &to);
            }
            proof {
                assert(before.same_nodes(self)) by {
                    assert forall|node: NodeHandle<T>| #[trigger] before.has_node(node) implies {
                        &&& self.node(node).wf()
                        &&& self.node(node).has_subgraph() == before.node(node).has_subgraph()
                        &&& self.node(node).has_subgraph() ==> self.node(node).subgraph_handle()
                            == before.node(node).subgraph_handle()
                    } by {
                        assert(previous.has_node(node));
                    }
                }
                assert(before.same_caches(self)) by {
                    assert forall|node: NodeHandle<T>| #[trigger] before.has_node(node) implies self.node(
                        node,
                    ).cached() == before.node(node).cached() by {
                        assert(previous.has_node(node));
                        if known && node != to && node != *handle {
                            assert(self.node(node) == previous.node(node));
                        }
                    }
                }
                assert(before.same_processors(self)) by {
                    assert forall|node: NodeHandle<T>| #[trigger] before.has_node(node) implies {
                        &&& self.node(node).processor() == before.node(node).processor()
                        &&& self.node(node).is_slotted() == before.node(node).is_slotted()
                        &&& self.node(node).zero_allowed() == before.node(node).zero_allowed()
                    } by {
                        assert(previous.has_node(node));
                        if known && node != to && node != *handle {
                            assert(self.node(node) == previous.node(node));
                        }
                    }
                }
                assert forall|node: NodeHandle<T>, other: NodeHandle<T>|
                    before.has_node(node) implies (#[trigger] self.node(node).outputs().contains(
                    other,
                ) <==> before.node(node).outputs().contains(other) && !(node == *handle
                    && next.contains(other))) by {
                    assert(previous.has_node(node));
                }
                assert forall|node: NodeHandle<T>, other: NodeHandle<T>|
                    before.has_node(node) implies (#[trigger] self.node(node).inputs().contains(
                    other,
                ) <==> before.node(node).inputs().contains(other) && !(other == *handle
                    && next.contains(node))) by {
                    assert(previous.has_node(node));
                    if !known && node == to && other == *handle {
                        assert(previous.linked(to));
                        if previous.node(to).inputs().contains(*handle) {
                            let k = choose|k: int|
                                0 <= k < previous.node(to).inputs().len() && previous.node(
                                    to,
                                ).inputs()[k] == *handle;
                            assert(previous.has_node(previous.node(to).inputs()[k]));
                        }
                    }
                }
            }
            current += 1;
        }
        proof {
            assert(outputs@.take(length as int) =~= outputs@);
            assert forall|node: NodeHandle<T>, other: NodeHandle<T>|
                before.has_node(node) implies (#[trigger] self.node(node).inputs().contains(
                other,
            ) <==> before.node(node).inputs().contains(other) && other != *handle) by {
                if before.node(node).inputs().contains(other) && other == *handle {
                    assert(before.linked(node));
                    let k = choose|k: int|
                        0 <= k < before.node(node).inputs().len() && before.node(node).inputs()[k]
                            == other;
                    assert(before.has_node(before.node(node).inputs()[k]));
                    assert(before.node(*handle).outputs().contains(node));
                }
            }
        }
    }

    /// Takes away every edge to and from a node. What the node and the
    /// nodes after it have cached is given up.
    pub fn disconnect_all_nodes(&mut self, handle: &NodeHandle<T>) -> (result: Result<
        (),
        HardeenError,
    >)
        requires
            old(self).wf(),
        ensures
            final(self).wf(),
            old(self).caches_valid() ==> final(self).caches_valid(),
            !old(self).has_node(*handle) ==> result == Err::<(), _>(HardeenError::InvalidHandle)
                && *final(self) == *old(self),
            old(self).has_node(*handle) ==> {
                &&& result is Ok
                &&& final(self).nodes().same_layout(old(self).nodes())
                &&& final(self).subgraphs() == old(self).subgraphs()
                &&& final(self).output() == old(self).output()
                &&& final(self).exposed() == old(self).exposed()
                &&& old(self).same_nodes(final(self))
                &&& old(self).same_processors(final(self))
                &&& forall|node: NodeHandle<T>, other: NodeHandle<T>|
                    old(self).has_node(node) ==> (#[trigger] final(self).node(
                        node,
                    ).outputs().contains(other) <==> old(self).node(node).outputs().contains(other)
                        && node != *handle && other != *handle)
                &&& forall|node: NodeHandle<T>, other: NodeHandle<T>|
                    old(self).has_node(node) ==> (#[trigger] final(self).node(
                        node,
                    ).inputs().contains(other) <==> old(self).node(node).inputs().contains(other)
                        && node != *handle && other != *handle)
                &&& forall|node: NodeHandle<T>| #[trigger]
                    old(self).has_node(node) ==> final(self).node(node).cached() == if old(self).reaches(*handle, node) {
                        None
                    } else {
                        old(self).node(node).cached()
                    }
            },
    {
        let ghost before = *old(self);
        proof {
            before.lemma_wf();
        }
        if !self.is_handle_valid(handle) {
            return Err(HardeenError::InvalidHandle);
        }
        self.invalidate_cache(handle);
        let ghost cleared = *self;
        self.unlink_inputs(handle);
        let ghost halfway = *self;
        self.unlink_outputs(handle);
        proof {
            cleared.lemma_wf();
            assert(before.same_nodes(self)) by {
                assert forall|node: NodeHandle<T>| #[trigger] before.has_node(node) implies {
                    &&& self.node(node).wf()
                    &&& self.node(node).has_subgraph() == before.node(node).has_subgraph()
                    &&& self.node(node).has_subgraph() ==> self.node(node).subgraph_handle()
                        == before.node(node).subgraph_handle()
                } by {
                    assert(cleared.has_node(node));
                    assert(halfway.has_node(node));
                }
            }
            assert(before.same_processors(self)) by {
                assert forall|node: NodeHandle<T>| #[trigger] before.has_node(node) implies {
                    &&& self.node(node).processor() == before.node(node).processor()
                    &&& self.node(node).is_slotted() == before.node(node).is_slotted()
                    &&& self.node(node).zero_allowed() == before.node(node).zero_allowed()
                } by {
                    assert(cleared.has_node(node));
                    assert(halfway.has_node(node));
                }
            }
            assert forall|node: NodeHandle<T>, other: NodeHandle<T>|
                before.has_node(node) implies (#[trigger] self.node(node).outputs().contains(
                other,
            ) <==> before.node(node).outputs().contains(other) && node != *handle && other
                != *handle) by {
                assert(cleared.has_node(node));
                assert(halfway.has_node(node));
            }
            assert forall|node: NodeHandle<T>, other: NodeHandle<T>|
                before.has_node(node) implies (#[trigger] self.node(node).inputs().contains(
                other,
            ) <==> before.node(node).inputs().contains(other) && node != *handle && other
                != *handle) by {
                assert(cleared.has_node(node));
                assert(halfway.has_node(node));
            }
            assert forall|node: NodeHandle<T>| #[trigger]
                before.has_node(node) implies self.node(node).cached() == if before.reaches(
                *handle,
                node,
            ) {
                None
            } else {
                before.node(node).cached()
            } by {
                assert(cleared.has_node(node));
                assert(halfway.has_node(node));
            }
        }
        Ok(())
    }

    /// The exposed parameters that do not lead to a node, in their order.
    pub open spec fn not_leading_to(
        exposed: Seq<ExposedParameter<T>>,
        handle: NodeHandle<T>,
    ) -> Seq<ExposedParameter<T>>
        decreases exposed.len(),
    {
        if exposed.len() == 0 {
            Seq::empty()
        } else if exposed.last().target() == handle {
            Self::not_leading_to(exposed.drop_last(), handle)
        } else {
            Self::not_leading_to(exposed.drop_last(), handle).push(exposed.last())
        }
    }

    /// Takes a node out of the graph, with every edge to and from it and
    /// with every exposed parameter that leads to it. What the nodes after
    /// it have cached is given up.
    pub fn remove_node(&mut self, handle: NodeHandle<T>) -> (result: Result<(), HardeenError>)
        requires
            old(self).wf(),
        ensures
            final(self).wf(),
            old(self).caches_valid() ==> final(self).caches_valid(),
            !old(self).has_node(handle) ==> result == Err::<(), _>(HardeenError::InvalidHandle)
                && *final(self) == *old(self),
            old(self).has_node(handle) ==> {
                &&& result is Ok
                &&& !final(self).has_node(handle)
                &&& final(self).nodes().slots.len() == old(self).nodes().slots.len()
                &&& final(self).subgraphs() == old(self).subgraphs()
                &&& final(self).output() == old(self).output()
                &&& final(self).exposed() == Self::not_leading_to(old(self).exposed(), handle)
                &&& forall|node: NodeHandle<T>| #[trigger]
                    final(self).has_node(node) <==> old(self).has_node(node) && node != handle
                &&& forall|node: NodeHandle<T>| #[trigger]
                    final(self).has_node(node) ==> {
                        &&& final(self).node(node).processor() == old(self).node(node).processor()
                        &&& final(self).node(node).is_slotted() == old(self).node(
                            node,
                        ).is_slotted()
                        &&& final(self).node(node).cached() == if old(self).reaches(handle, node) {
                            None
                        } else {
                            old(self).node(node).cached()
                        }
                    }
                &&& forall|node: NodeHandle<T>, other: NodeHandle<T>|
                    final(self).has_node(node) ==> (#[trigger] final(self).node(
                        node,
                    ).outputs().contains(other) <==> old(self).node(node).outputs().contains(other)
                        && other != handle)
                &&& forall|node: NodeHandle<T>, other: NodeHandle<T>|
                    final(self).has_node(node) ==> (#[trigger] final(self).node(
                        node,
                    ).inputs().contains(other) <==> old(self).node(node).inputs().contains(other)
                        && other != handle)
            },
    {
        let ghost before = *old(self);
        if self.disconnect_all_nodes(&handle).is_err() {
            return Err(HardeenError::InvalidHandle);
        }
        let ghost alone = *self;
        proof {
            alone.lemma_wf();
            alone.nodes().lemma_remove_frame(handle.index, handle.generation);
        }
        let _ = self.nodes.remove_entry(handle);
        let mut kept: Vec<ExposedParameter<T>> = Vec::new();
        let mut current: usize = 0;
        let length = self.exposed_parameters.len();
        let mut exposed: Vec<ExposedParameter<T>> = Vec::new();
        std::mem::swap(&mut exposed, &mut self.exposed_parameters);
        while exposed.len() > 0
            invariant
                exposed@.len() + current == length,
                length == before.exposed().len(),
                exposed@ == before.exposed().take(exposed@.len() as int),
                kept@.reverse() == ({
                    let all = Self::not_leading_to(before.exposed(), handle);
                    let first = Self::not_leading_to(exposed@, handle);
                    all.subrange(first.len() as int, all.len() as int)
                }),
                Self::not_leading_to(exposed@, handle).len() + kept@.len() == Self::not_leading_to(
                    before.exposed(),
                    handle,
                ).len(),
                Self::not_leading_to(before.exposed(), handle).take(
                    Self::not_leading_to(exposed@, handle).len() as int,
                ) == Self::not_leading_to(exposed@, handle),
            decreases exposed@.len(),
        {
            let ghost previous = exposed@;
            let ghost previous_kept = kept@;
            let ghost all = Self::not_leading_to(before.exposed(), handle);
            let last = exposed.pop();
            proof {
                assert(previous.drop_last() =~= exposed@);
                assert(exposed@ =~= before.exposed().take(exposed@.len() as int));
            }
            if let Some(parameter) = last {
                if !(parameter.node_handle.index == handle.index && parameter.node_handle.generation
                    == handle.generation) {
                    kept.push(parameter);
                    proof {
                        let first = Self::not_leading_to(previous, handle);
                        let shorter = Self::not_leading_to(exposed@, handle);
                        assert(first == shorter.push(parameter));
                        assert(all.take(first.len() as int) == first);
                        assert(all.take(shorter.len() as int) =~= shorter) by {
                            assert forall|i: int| 0 <= i < shorter.len() implies all[i]
                                == shorter[i] by {
                                assert(all.take(first.len() as int)[i] == first[i]);
                            }
                        }
                        assert(all[shorter.len() as int] == parameter) by {
                            assert(all.take(first.len() as int)[shorter.len() as int]
                                == first[shorter.len() as int]);
                        }
                        assert(kept@.reverse() =~= all.subrange(
                            shorter.len() as int,
                            all.len() as int,
                        )) by {
                            assert(previous_kept.reverse() == all.subrange(
                                first.len() as int,
                                all.len() as int,
                            ));
                            assert forall|i: int| 0 <= i < kept@.len() implies kept@.reverse()[i]
                                == all.subrange(shorter.len() as int, all.len() as int)[i] by {
                                if i > 0 {
                                    assert(previous_kept.reverse()[i - 1] == all.subrange(
                                        first.len() as int,
                                        all.len() as int,
                                    )[i - 1]);
                                }
                            }
                        }
                    }
                }
            }
            current += 1;
        }
        let mut restored: Vec<ExposedParameter<T>> = Vec::new();
        while kept.len() > 0
            invariant
                restored@ + kept@.reverse() == Self::not_leading_to(before.exposed(), handle),
            decreases kept@.len(),
        {
            let ghost previous = kept@;
            let ghost previous_restored = restored@;
            if let Some(parameter) = kept.pop() {
                restored.push(parameter);
                proof {
                    assert(previous.reverse() =~= seq![parameter] + kept@.reverse());
                    assert(restored@ + kept@.reverse() =~= previous_restored + previous.reverse());
                }
            }
        }
        proof {
            assert(kept@.reverse() =~= Seq::empty());
            assert(restored@ =~= restored@ + kept@.reverse());
        }
        self.exposed_parameters = restored;
        proof {
            assert forall|node: NodeHandle<T>| #[trigger]
                self.has_node(node) <==> before.has_node(node) && node != handle by {
                assert(alone.has_node(node) <==> before.has_node(node));
            }
            assert forall|node: NodeHandle<T>| #[trigger] self.has_node(node) implies self.node(node)
                == alone.node(node) by {
                assert(self.nodes().slots[node.index as int] == alone.nodes().slots[node.index as int]);
            }
            assert forall|node: NodeHandle<T>, other: NodeHandle<T>|
                self.has_node(node) implies (#[trigger] self.node(node).outputs().contains(other)
                <==> before.node(node).outputs().contains(other) && other != handle) by {
                assert(before.has_node(node));
                assert(self.node(node) == alone.node(node));
            }
            assert forall|node: NodeHandle<T>, other: NodeHandle<T>|
                self.has_node(node) implies (#[trigger] self.node(node).inputs().contains(other)
                <==> before.node(node).inputs().contains(other) && other != handle) by {
                assert(before.has_node(node));
                assert(self.node(node) == alone.node(node));
            }
            assert forall|node: NodeHandle<T>| #[trigger] self.has_node(node) implies {
                &&& self.node(node).processor() == before.node(node).processor()
                &&& self.node(node).is_slotted() == before.node(node).is_slotted()
                &&& self.node(node).cached() == if before.reaches(handle, node) {
                    None
                } else {
                    before.node(node).cached()
                }
            } by {
                assert(before.has_node(node));
                assert(self.node(node) == alone.node(node));
                before.lemma_wf();
                alone.lemma_wf();
                assert(alone.linked(node));
                assert(before.linked(node));
            }
            assert forall|node: NodeHandle<T>| self.has_node(node) implies #[trigger] self.linked(
                node,
            ) by {
                assert(alone.has_node(node));
                assert(alone.linked(node));
                assert(self.node(node) == alone.node(node));
                assert forall|k: int| 0 <= k < self.node(node).outputs().len() implies self.has_node(
                    #[trigger] self.node(node).outputs()[k],
                ) && self.node(self.node(node).outputs()[k]).inputs().contains(node) by {
                    let other = alone.node(node).outputs()[k];
                    assert(alone.has_node(other));
                    assert(alone.node(node).outputs().contains(other));
                    assert(other != handle);
                    assert(self.node(other) == alone.node(other));
                }
                assert forall|k: int| 0 <= k < self.node(node).inputs().len() implies self.has_node(
                    #[trigger] self.node(node).inputs()[k],
                ) && self.node(self.node(node).inputs()[k]).outputs().contains(node) by {
                    let other = alone.node(node).inputs()[k];
                    assert(alone.has_node(other));
                    assert(alone.node(node).inputs().contains(other));
                    assert(other != handle);
                    assert(self.node(other) == alone.node(other));
                }
            }
            assert forall|from: NodeHandle<T>, to: NodeHandle<T>| #[trigger]
                self.edge(from, to) implies alone.edge(from, to) by {
                assert(self.node(from) == alone.node(from));
            }
            alone.lemma_fewer_edges(self);
            alone.lemma_same_subgraphs(self);
        }
        Ok(())
    }

    /// Chooses the node that the graph is evaluated from. Where that node
    /// has a subgraph processor, what it and the nodes after it have cached
    /// is given up.
    pub fn set_output_node_handle(&mut self, output_node_handle: NodeHandle<T>)
        requires
            old(self).wf(),
            old(self).has_node(output_node_handle),
        ensures
            final(self).wf(),
            old(self).caches_valid() ==> final(self).caches_valid(),
            final(self).output() == Some(output_node_handle),
            final(self).nodes().same_layout(old(self).nodes()),
            final(self).subgraphs() == old(self).subgraphs(),
            final(self).exposed() == old(self).exposed(),
            forall|handle: NodeHandle<T>| #[trigger]
                old(self).has_node(handle) ==> {
                    &&& final(self).node(handle).processor() == old(self).node(handle).processor()
                    &&& final(self).node(handle).input() == old(self).node(handle).input()
                    &&& final(self).node(handle).outputs() == old(self).node(handle).outputs()
                    &&& final(self).node(handle).cached() == if old(self).node(
                        output_node_handle,
                    ).has_subgraph() && old(self).reaches(output_node_handle, handle) {
                        None
                    } else {
                        old(self).node(handle).cached()
                    }
                },
    {
        let ghost before = *old(self);
        proof {
            before.lemma_wf();
        }
        let nested = match self.nodes.get(&output_node_handle) {
            Ok(node) => match node.get_processor_component() {
                ProcessorComponent::SubgraphProcessor(_, _) => true,
                ProcessorComponent::BasicProcessor(_) => false,
            },
            Err(_) => false,
        };
        if nested {
            self.invalidate_cache(&output_node_handle);
        }
        let ghost cleared = *self;
        self.output_node_handle = Some(output_node_handle);
        proof {
            assert(self.nodes == cleared.nodes);
            cleared.lemma_wf();
            assert(self.wf_here()) by {
                assert forall|handle: NodeHandle<T>| self.has_node(handle) implies #[trigger] self.linked(
                    handle,
                ) by {
                    assert(cleared.linked(handle));
                }
                let up = choose|rank: spec_fn(int) -> nat| cleared.rising(rank);
                assert(self.rising(up)) by {
                    assert forall|from: NodeHandle<T>, to: NodeHandle<T>| #[trigger]
                        self.edge(from, to) implies up(from.index as int) < up(to.index as int) by {
                        assert(cleared.edge(from, to));
                    }
                }
                let down = choose|rank: spec_fn(int) -> nat| cleared.falling(rank);
                assert(self.falling(down)) by {
                    assert forall|from: NodeHandle<T>, to: NodeHandle<T>| #[trigger]
                        self.edge(from, to) implies down(from.index as int) > down(
                        to.index as int,
                    ) by {
                        assert(cleared.edge(from, to));
                    }
                }
            }
            cleared.lemma_same_subgraphs(self);
            cleared.lemma_caches_kept(self);
        }
    }

    /// Adds a node with a subgraph processor, and an empty graph for the
    /// processor to work with.
    pub fn add_checked_subgraph_processor_node(
        &mut self,
        processor: S,
    ) -> (handle: NodeHandle<T>)
        requires
            old(self).wf(),
        ensures
            final(self).wf(),
            old(self).caches_valid() ==> final(self).caches_valid(),
            parts(handle) == old(self).nodes().next_handle(),
            final(self).nodes() == old(self).nodes().insert(final(self).node(handle)),
            final(self).has_node(handle),
            !old(self).has_node(handle),
            final(self).node(handle).processor() == ProcessorComponent::<
                T,
                P,
                S,
            >::SubgraphProcessor(processor, final(self).node(handle).subgraph_handle()),
            processor.lawful() ==> final(self).node(handle).starts_with(
                processor.spec_input_type(),
            ),
            final(self).node(handle).has_subgraph(),
            final(self).node(handle).inputs() == Seq::<NodeHandle<T>>::empty(),
            final(self).node(handle).outputs() == Seq::<NodeHandle<T>>::empty(),
            final(self).node(handle).cached() is None,
            parts(final(self).node(handle).subgraph_handle()) == old(self).subgraphs().next_handle(),
            final(self).subgraphs() == old(self).subgraphs().insert(
                final(self).subgraph(final(self).node(handle).subgraph_handle()),
            ),
            final(self).has_subgraph(final(self).node(handle).subgraph_handle()),
            final(self).subgraph(final(self).node(handle).subgraph_handle()).nodes() == Arena::<
                Node<T, P, S>,
            >::empty(),
            final(self).subgraph(final(self).node(handle).subgraph_handle()).output() is None,
            final(self).output() == old(self).output(),
            final(self).exposed() == old(self).exposed(),
    {
        let ghost before = *old(self);
        proof {
            before.lemma_wf();
        }
        let subgraph: Graph<T, P, S> = Graph::new();
        let mut subgraphs = match self.subgraphs.take() {
            Some(subgraphs) => subgraphs,
            None => HandledVec::new(),
        };
        proof {
            subgraphs@.lemma_insert_frame(subgraph);
        }
        let ghost arena = subgraphs@;
        let subgraph_handle = subgraphs.add_entry(subgraph);
        self.subgraphs = Some(subgraphs);
        proof {
            assert(self.nodes == before.nodes);
            assert(self.wf_here()) by {
                assert forall|handle: NodeHandle<T>| self.has_node(handle) implies #[trigger] self.linked(
                    handle,
                ) by {
                    assert(before.linked(handle));
                }
                let up = choose|rank: spec_fn(int) -> nat| before.rising(rank);
                assert(self.rising(up)) by {
                    assert forall|from: NodeHandle<T>, to: NodeHandle<T>| #[trigger]
                        self.edge(from, to) implies up(from.index as int) < up(to.index as int) by {
                        assert(before.edge(from, to));
                    }
                }
                let down = choose|rank: spec_fn(int) -> nat| before.falling(rank);
                assert(self.falling(down)) by {
                    assert forall|from: NodeHandle<T>, to: NodeHandle<T>| #[trigger]
                        self.edge(from, to) implies down(from.index as int) > down(
                        to.index as int,
                    ) by {
                        assert(before.edge(from, to));
                    }
                }
            }
            assert(self.wf()) by {
                assert forall|i: int|
                    0 <= i < subgraphs@.slots.len() && (#[trigger] subgraphs@.slots[i]).data
                        is Some implies subgraphs@.slots[i].data->0.wf() by {
                    if i != subgraph_handle.index {
                        assert(subgraphs@.slots[i] == arena.slots[i]);
                        assert(before.subgraphs().slots[i].data is Some);
                    }
                }
            }
        }
        proof {
            before.lemma_caches_kept(self);
        }
        self.add_node(Node::new_subgraph_processor_node(processor, subgraph_handle))
    }

    pub fn get_subgraph_handle(&self, node_handle: &NodeHandle<T>) -> (result: Result<
        SubgraphHandle<T>,
        HardeenError,
    >)
        requires
            self.wf(),
        ensures
            result == if !self.has_node(*node_handle) {
                Err::<SubgraphHandle<T>, _>(HardeenError::InvalidHandle)
            } else if !self.node(*node_handle).has_subgraph() {
                Err::<SubgraphHandle<T>, _>(HardeenError::NodeRunTypeMismatch)
            } else {
                Ok::<_, HardeenError>(self.node(*node_handle).subgraph_handle())
            },
    {
        match self.nodes.get(node_handle) {
            Err(_) => Err(HardeenError::InvalidHandle),
            Ok(node) => match node.get_processor_component() {
                ProcessorComponent::BasicProcessor(_) => Err(HardeenError::NodeRunTypeMismatch),
                ProcessorComponent::SubgraphProcessor(_, subgraph_handle) => Ok(*subgraph_handle),
            },
        }
    }

    pub fn get_subgraph(&self, handle: &SubgraphHandle<T>) -> (result: Result<
        &Graph<T, P, S>,
        HardeenError,
    >)
        requires
            self.wf(),
        ensures
            self.has_subgraph(*handle) ==> result == Ok::<_, HardeenError>(&self.subgraph(*handle))
                && self.subgraph(*handle).wf(),
            !self.has_subgraph(*handle) ==> result == Err::<&Graph<T, P, S>, _>(
                HardeenError::InvalidHandle,
            ),
    {
        proof {
            self.lemma_wf();
        }
        match &self.subgraphs {
            None => Err(HardeenError::InvalidHandle),
            Some(subgraphs) => match subgraphs.get(handle) {
                Ok(subgraph) => Ok(subgraph),
                Err(_) => Err(HardeenError::InvalidHandle),
            },
        }
    }

    /// The graph with other subgraphs.
    pub closed spec fn with_subgraphs(
        self,
        subgraphs: HandledVec<SubgraphHandle<T>, StdVec<Graph<T, P, S>>>,
    ) -> Graph<T, P, S> {
        Graph { subgraphs: Some(subgraphs), ..self }
    }

    /// A graph in order stays in order when one of its subgraphs is replaced
    /// by a graph in order.
    proof fn lemma_subgraph_replaced(self, index: usize, generation: usize, replacement: Graph<T, P, S>)
        requires
            self.wf(),
            self.subgraphs().contains(index, generation),
        ensures
            forall|changed: HandledVec<SubgraphHandle<T>, StdVec<Graph<T, P, S>>>|
                #![trigger changed.wf()]
                changed.wf() && changed@ == self.subgraphs().update(index, generation, replacement)
                    && replacement.wf() ==> self.with_subgraphs(changed).wf(),
    {
        self.lemma_wf();
        let arena = self.subgraphs();
        arena.lemma_update_frame(index, generation, replacement);
        assert forall|changed: HandledVec<SubgraphHandle<T>, StdVec<Graph<T, P, S>>>|
            #![trigger changed.wf()]
            changed.wf() && changed@ == arena.update(index, generation, replacement)
                && replacement.wf() implies self.with_subgraphs(changed).wf() by {
            let later = self.with_subgraphs(changed);
            assert(later.nodes == self.nodes);
            assert(later.wf_here()) by {
                assert forall|handle: NodeHandle<T>| later.has_node(handle) implies #[trigger] later.linked(
                    handle,
                ) by {
                    assert(self.linked(handle));
                }
                let up = choose|rank: spec_fn(int) -> nat| self.rising(rank);
                assert(later.rising(up)) by {
                    assert forall|from: NodeHandle<T>, to: NodeHandle<T>| #[trigger]
                        later.edge(from, to) implies up(from.index as int) < up(to.index as int) by {
                        assert(self.edge(from, to));
                    }
                }
                let down = choose|rank: spec_fn(int) -> nat| self.falling(rank);
                assert(later.falling(down)) by {
                    assert forall|from: NodeHandle<T>, to: NodeHandle<T>| #[trigger]
                        later.edge(from, to) implies down(from.index as int) > down(
                        to.index as int,
                    ) by {
                        assert(self.edge(from, to));
                    }
                }
            }
            assert forall|i: int|
                0 <= i < changed@.slots.len() && (#[trigger] changed@.slots[i]).data
                    is Some implies changed@.slots[i].data->0.wf() by {
                if i != index {
                    assert(changed@.slots[i] == arena.slots[i]);
                }
            }
        }
    }

    /// A node with a subgraph processor that works with the subgraph leads
    /// to the node, along edges or because it is the node.
    pub open spec fn fed_by_subgraph(&self, subgraph: SubgraphHandle<T>, node: NodeHandle<T>) -> bool {
        self.fed_below(subgraph, node, self.nodes().slots.len() as int)
    }

    /// As `fed_by_subgraph`, for the nodes in the slots below `limit`.
    pub open spec fn fed_below(
        &self,
        subgraph: SubgraphHandle<T>,
        node: NodeHandle<T>,
        limit: int,
    ) -> bool {
        exists|owner: NodeHandle<T>|
            {
                &&& self.has_node(owner)
                &&& owner.index < limit
                &&& self.node(owner).has_subgraph()
                &&& self.node(owner).subgraph_handle() == subgraph
                &&& #[trigger] self.reaches(owner, node)
            }
    }

    /// Gives up what the nodes have cached that work with a subgraph, and
    /// what every node has cached that a walk leads to from one of them.
    fn invalidate_owners(&mut self, handle: &SubgraphHandle<T>)
        requires
            old(self).wf(),
        ensures
            final(self).wf(),
            old(self).caches_valid() ==> final(self).caches_valid(),
            final(self).subgraphs == old(self).subgraphs,
            old(self).same_but_caches(final(self)),
            forall|node: NodeHandle<T>| #[trigger]
                old(self).has_node(node) ==> final(self).node(node).cached() == if old(
                    self,
                ).fed_by_subgraph(*handle, node) {
                    None
                } else {
                    old(self).node(node).cached()
                },
    {
        let ghost before = *old(self);
        let length = self.nodes.get_length();
        let mut index: usize = 0;
        proof {
            before.lemma_wf();
        }
        while index < length
            invariant
                index <= length,
                length == before.nodes().slots.len(),
                before.wf(),
                self.wf(),
                before.caches_valid() ==> self.caches_valid(),
                self.subgraphs == before.subgraphs,
                before.same_but_caches(&*self),
                forall|node: NodeHandle<T>| #[trigger]
                    before.has_node(node) ==> self.node(node).cached() == if before.fed_below(
                        *handle,
                        node,
                        index as int,
                    ) {
                        None
                    } else {
                        before.node(node).cached()
                    },
            decreases length - index,
        {
            let ghost opened = *self;
            proof {
                opened.lemma_wf();
                before.lemma_caches_only(&opened);
            }
            let candidate = self.nodes.get_handle_for_index(index);
            let owner = match candidate {
                Some(node_handle) => match self.nodes.get(&node_handle) {
                    Ok(node) => match node.get_processor_component() {
                        ProcessorComponent::SubgraphProcessor(_, held) => {
                            if held.index == handle.index && held.generation == handle.generation {
                                Some(node_handle)
                            } else {
                                None
                            }
                        },
                        ProcessorComponent::BasicProcessor(_) => None,
                    },
                    Err(_) => None,
                },
                None => None,
            };
            proof {
                MarkedHandle::lemma_equal_parts(*handle, *handle);
            }
            if let Some(node_handle) = owner {
                let ghost rank = choose|rank: spec_fn(int) -> nat| opened.falling(rank);
                self.invalidate_from(&node_handle, Ghost(rank));
                proof {
                    opened.lemma_caches_only(&*self);
                    assert(before.same_but_caches(&*self)) by {
                        assert forall|node: NodeHandle<T>| #[trigger] before.has_node(node) implies {
                            &&& self.node(node).processor() == before.node(node).processor()
                            &&& self.node(node).input() == before.node(node).input()
                            &&& self.node(node).outputs() == before.node(node).outputs()
                        } by {
                            assert(opened.has_node(node));
                        }
                    }
                    assert forall|node: NodeHandle<T>| #[trigger] before.has_node(node) implies self.node(
                        node,
                    ).cached() == if before.fed_below(*handle, node, index + 1) {
                        None
                    } else {
                        before.node(node).cached()
                    } by {
                        assert(opened.has_node(node));
                        assert(before.has_node(node_handle));
                        assert(before.node(node_handle).processor() == opened.node(
                            node_handle,
                        ).processor());
                        assert(opened.reaches(node_handle, node) == before.reaches(node_handle, node));
                        if before.fed_below(*handle, node, index + 1) {
                            let found = choose|found: NodeHandle<T>|
                                {
                                    &&& before.has_node(found)
                                    &&& found.index < index + 1
                                    &&& before.node(found).has_subgraph()
                                    &&& before.node(found).subgraph_handle() == *handle
                                    &&& #[trigger] before.reaches(found, node)
                                };
                            if found.index == index {
                                MarkedHandle::lemma_equal_parts(found, node_handle);
                            } else {
                                assert(before.fed_below(*handle, node, index as int));
                            }
                        }
                        if before.fed_below(*handle, node, index as int) {
                            assert(before.fed_below(*handle, node, index + 1));
                        }
                        if before.reaches(node_handle, node) {
                            MarkedHandle::lemma_equal_parts(
                                before.node(node_handle).subgraph_handle(),
                                *handle,
                            );
                            assert(before.fed_below(*handle, node, index + 1));
                        }
                    }
                    if before.caches_valid() {
                        assert(self.caches_valid());
                    }
                }
            } else {
                proof {
                    assert forall|node: NodeHandle<T>| #[trigger] before.has_node(node) implies (
                    before.fed_below(*handle, node, index + 1) == before.fed_below(
                        *handle,
                        node,
                        index as int,
                    )) by {
                        if before.fed_below(*handle, node, index + 1) {
                            let found = choose|found: NodeHandle<T>|
                                {
                                    &&& before.has_node(found)
                                    &&& found.index < index + 1
                                    &&& before.node(found).has_subgraph()
                                    &&& before.node(found).subgraph_handle() == *handle
                                    &&& #[trigger] before.reaches(found, node)
                                };
                            if found.index == index {
                                assert(opened.has_node(found));
                                assert(opened.node(found).processor() == before.node(
                                    found,
                                ).processor());
                                MarkedHandle::lemma_equal_parts(
                                    before.node(found).subgraph_handle(),
                                    *handle,
                                );
                                if candidate is Some {
                                    MarkedHandle::lemma_equal_parts(found, candidate->0);
                                }
                                assert(false);
                            }
                            assert(before.fed_below(*handle, node, index as int));
                        }
                        if before.fed_below(*handle, node, index as int) {
                            assert(before.fed_below(*handle, node, index + 1));
                        }
                    }
                }
            }
            index += 1;
        }
        proof {
            assert forall|node: NodeHandle<T>| #[trigger] before.has_node(node) implies (
            before.fed_below(*handle, node, length as int) == before.fed_by_subgraph(*handle, node)) by {}
        }
    }

    /// A subgraph, to work on. What a node has cached that works with the
    /// subgraph is given up, and what every node has cached that a walk
    /// leads to from such a node: the subgraph may change. The graph stays
    /// in order as long as the subgraph does.
    pub fn get_subgraph_mut(&mut self, handle: &SubgraphHandle<T>) -> (result: Result<
        &mut Graph<T, P, S>,
        HardeenError,
    >)
        requires
            old(self).wf(),
        ensures
            !old(self).has_subgraph(*handle) ==> result == Err::<&mut Graph<T, P, S>, _>(
                HardeenError::InvalidHandle,
            ) && *final(self) == *old(self),
            old(self).has_subgraph(*handle) ==> {
                &&& result is Ok
                &&& *result->Ok_0 == old(self).subgraph(*handle)
                &&& result->Ok_0.wf()
                &&& final(self).subgraphs() == old(self).subgraphs().update(
                    handle.index,
                    handle.generation,
                    *final(result->Ok_0),
                )
                &&& final(self).nodes().same_layout(old(self).nodes())
                &&& forall|node: NodeHandle<T>| #[trigger]
                    old(self).has_node(node) ==> {
                        &&& final(self).node(node).processor() == old(self).node(node).processor()
                        &&& final(self).node(node).input() == old(self).node(node).input()
                        &&& final(self).node(node).outputs() == old(self).node(node).outputs()
                        &&& final(self).node(node).cached() == if old(self).fed_by_subgraph(
                            *handle,
                            node,
                        ) {
                            None
                        } else {
                            old(self).node(node).cached()
                        }
                    }
                &&& final(self).output() == old(self).output()
                &&& final(self).exposed() == old(self).exposed()
                &&& final(result->Ok_0).wf() ==> final(self).wf()
            },
    {
        if self.get_subgraph(handle).is_err() {
            return Err(HardeenError::InvalidHandle);
        }
        self.invalidate_owners(handle);
        self.open_subgraph(handle)
    }

    /// A subgraph, to work on.
    fn open_subgraph(&mut self, handle: &SubgraphHandle<T>) -> (result: Result<
        &mut Graph<T, P, S>,
        HardeenError,
    >)
        requires
            old(self).wf(),
        ensures
            !old(self).has_subgraph(*handle) ==> result == Err::<&mut Graph<T, P, S>, _>(
                HardeenError::InvalidHandle,
            ) && *final(self) == *old(self),
            old(self).has_subgraph(*handle) ==> {
                &&& result is Ok
                &&& *result->Ok_0 == old(self).subgraph(*handle)
                &&& result->Ok_0.wf()
                &&& final(self).subgraphs() == old(self).subgraphs().update(
                    handle.index,
                    handle.generation,
                    *final(result->Ok_0),
                )
                &&& final(self).nodes() == old(self).nodes()
                &&& final(self).output() == old(self).output()
                &&& final(self).exposed() == old(self).exposed()
                &&& final(result->Ok_0).wf() ==> final(self).wf()
            },
    {
        let ghost before = *old(self);
        proof {
            before.lemma_wf();
        }
        if self.get_subgraph(handle).is_err() {
            return Err(HardeenError::InvalidHandle);
        }
        match &mut self.subgraphs {
            None => Err(HardeenError::InvalidHandle),
            Some(subgraphs) => {
                match subgraphs.get_mut(handle) {
                    Ok(subgraph) => {
                        proof {
                            before.lemma_subgraph_replaced(
                                handle.index,
                                handle.generation,
                                *final(subgraph),
                            );
                        }
                        Ok(subgraph)
                    },
                    Err(_) => Err(HardeenError::InvalidHandle),
                }
            },
        }
    }

    /// The subgraph of a node with a subgraph processor, to work on. What
    /// the node has cached is given up, as `get_subgraph_mut` does.
    pub fn get_subgraph_for_node(&mut self, node_handle: &NodeHandle<T>) -> (result: Result<
        &mut Graph<T, P, S>,
        HardeenError,
    >)
        requires
            old(self).wf(),
        ensures
            !old(self).has_node(*node_handle) ==> result == Err::<&mut Graph<T, P, S>, _>(
                HardeenError::InvalidHandle,
            ) && *final(self) == *old(self),
            old(self).has_node(*node_handle) && !old(self).node(*node_handle).has_subgraph()
                ==> result == Err::<&mut Graph<T, P, S>, _>(HardeenError::NodeRunTypeMismatch) && *final(self) == *old(self),
            old(self).has_node(*node_handle) && old(self).node(*node_handle).has_subgraph() ==> {
                let handle = old(self).node(*node_handle).subgraph_handle();
                &&& result is Ok
                &&& *result->Ok_0 == old(self).subgraph(handle)
                &&& result->Ok_0.wf()
                &&& final(self).subgraphs() == old(self).subgraphs().update(
                    handle.index,
                    handle.generation,
                    *final(result->Ok_0),
                )
                &&& final(self).nodes().same_layout(old(self).nodes())
                &&& forall|node: NodeHandle<T>| #[trigger]
                    old(self).has_node(node) ==> {
                        &&& final(self).node(node).processor() == old(self).node(node).processor()
                        &&& final(self).node(node).input() == old(self).node(node).input()
                        &&& final(self).node(node).outputs() == old(self).node(node).outputs()
                        &&& final(self).node(node).cached() == if old(self).fed_by_subgraph(
                            handle,
                            node,
                        ) {
                            None
                        } else {
                            old(self).node(node).cached()
                        }
                    }
                &&& final(self).node(*node_handle).cached() is None
                &&& final(self).output() == old(self).output()
                &&& final(self).exposed() == old(self).exposed()
                &&& final(result->Ok_0).wf() ==> final(self).wf()
            },
    {
        proof {
            self.lemma_wf();
            if self.has_node(*node_handle) {
                self.lemma_reaches_itself(*node_handle);
            }
        }
        match self.get_subgraph_handle(node_handle) {
            Err(error) => Err(error),
            Ok(subgraph_handle) => {
                assert(self.linked(*node_handle));
                self.get_subgraph_mut(&subgraph_handle)
            },
        }
    }

    pub fn is_node_subgraph_processor(&self, node_handle: &NodeHandle<T>) -> (result: Result<
        bool,
        HardeenError,
    >)
        requires
            self.wf(),
        ensures
            self.has_node(*node_handle) ==> result == Ok::<_, HardeenError>(
                self.node(*node_handle).has_subgraph(),
            ),
            !self.has_node(*node_handle) ==> result == Err::<bool, _>(HardeenError::InvalidHandle),
    {
        match self.nodes.get(node_handle) {
            Err(_) => Err(HardeenError::InvalidHandle),
            Ok(node) => match node.get_processor_component() {
                ProcessorComponent::BasicProcessor(_) => Ok(false),
                ProcessorComponent::SubgraphProcessor(_, _) => Ok(true),
            },
        }
    }

    /// Where the exposed parameter of a name stands, if there is one.
    pub open spec fn alias_position(exposed: Seq<ExposedParameter<T>>, name: Seq<char>) -> Option<int>
        decreases exposed.len(),
    {
        if exposed.len() == 0 {
            None
        } else if Self::alias_position(exposed.drop_last(), name) is Some {
            Self::alias_position(exposed.drop_last(), name)
        } else if exposed.last().alias() == name {
            Some(exposed.len() - 1)
        } else {
            None
        }
    }

    proof fn lemma_alias_position(exposed: Seq<ExposedParameter<T>>, name: Seq<char>)
        ensures
            match Self::alias_position(exposed, name) {
                Some(at) => 0 <= at < exposed.len() && exposed[at].alias() == name && forall|i: int|
                    0 <= i < at ==> (#[trigger] exposed[i]).alias() != name,
                None => forall|i: int| 0 <= i < exposed.len() ==> (#[trigger] exposed[i]).alias() != name,
            },
        decreases exposed.len(),
    {
        if exposed.len() > 0 {
            Self::lemma_alias_position(exposed.drop_last(), name);
            assert forall|i: int| 0 <= i < exposed.len() - 1 implies exposed[i]
                == exposed.drop_last()[i] by {}
        }
    }

    fn find_alias(&self, name: &str) -> (found: Option<usize>)
        ensures
            match found {
                Some(at) => Self::alias_position(self.exposed(), name@) == Some(at as int) && at
                    < self.exposed().len(),
                None => Self::alias_position(self.exposed(), name@) is None,
            },
    {
        let wanted = name.to_string();
        let mut at: usize = 0;
        let length = self.exposed_parameters.len();
        while at < length
            invariant
                at <= length,
                length == self.exposed_parameters@.len(),
                wanted@ == name@,
                forall|i: int| 0 <= i < at ==> (#[trigger] self.exposed_parameters@[i]).alias() != name@,
            decreases length - at,
        {
            if self.exposed_parameters[at].exposed_name == wanted {
                proof {
                    Self::lemma_alias_position(self.exposed(), name@);
                }
                return Some(at);
            }
            at += 1;
        }
        proof {
            Self::lemma_alias_position(self.exposed(), name@);
        }
        None
    }

    /// Offers a parameter of a node under a name of the graph's own, in
    /// place of what the name stood for. Nothing happens where the node
    /// does not exist or has no such parameter.
    pub fn expose_parameter(
        &mut self,
        exposed_name: &str,
        node_handle: &NodeHandle<T>,
        parameter_name: &str,
    ) -> (result: Result<(), HardeenError>)
        requires
            old(self).wf(),
        ensures
            final(self).wf(),
            old(self).caches_valid() ==> final(self).caches_valid(),
            result is Ok,
            final(self).nodes() == old(self).nodes(),
            final(self).subgraphs() == old(self).subgraphs(),
            final(self).output() == old(self).output(),
            !old(self).has_node(*node_handle)
                || (old(self).node(*node_handle).lawful()
                && !old(self).node(*node_handle).has_parameter(parameter_name@)) ==>
                final(self).exposed() == old(self).exposed(),
            old(self).has_node(*node_handle)
                && old(self).node(*node_handle).lawful()
                && old(self).node(*node_handle).has_parameter(parameter_name@) ==>
                {
                let at = match Self::alias_position(old(self).exposed(), exposed_name@) {
                    Some(at) => at,
                    None => old(self).exposed().len() as int,
                };
                &&& final(self).exposed().len() == if at < old(self).exposed().len() {
                    old(self).exposed().len()
                } else {
                    old(self).exposed().len() + 1
                }
                &&& final(self).exposed()[at].alias() == exposed_name@
                &&& final(self).exposed()[at].target() == *node_handle
                &&& final(self).exposed()[at].parameter() == parameter_name@
                &&& forall|i: int|
                    0 <= i < old(self).exposed().len()
                        && i != at ==>
                        #[trigger] final(self).exposed()[i] == old(self).exposed()[i]
            },
    {
        let ghost before = *old(self);
        let known = match self.nodes.get(node_handle) {
            Ok(node) => node.is_parameter(parameter_name),
            Err(_) => false,
        };
        if known {
            let exposed = ExposedParameter::new(exposed_name, node_handle, parameter_name);
            match self.find_alias(exposed_name) {
                Some(at) => {
                    self.exposed_parameters.set(at, exposed);
                },
                None => {
                    self.exposed_parameters.push(exposed);
                },
            }
        }
        proof {
            assert(self.nodes == before.nodes);
            before.lemma_wf();
            assert(self.wf_here()) by {
                assert forall|handle: NodeHandle<T>| self.has_node(handle) implies #[trigger] self.linked(
                    handle,
                ) by {
                    assert(before.linked(handle));
                }
                let up = choose|rank: spec_fn(int) -> nat| before.rising(rank);
                assert(self.rising(up)) by {
                    assert forall|from: NodeHandle<T>, to: NodeHandle<T>| #[trigger]
                        self.edge(from, to) implies up(from.index as int) < up(to.index as int) by {
                        assert(before.edge(from, to));
                    }
                }
                let down = choose|rank: spec_fn(int) -> nat| before.falling(rank);
                assert(self.falling(down)) by {
                    assert forall|from: NodeHandle<T>, to: NodeHandle<T>| #[trigger]
                        self.edge(from, to) implies down(from.index as int) > down(
                        to.index as int,
                    ) by {
                        assert(before.edge(from, to));
                    }
                }
            }
            before.lemma_same_subgraphs(self);
            before.lemma_caches_kept(self);
        }
        Ok(())
    }

    /// Sets a parameter of a node from a string. Where that succeeds, what
    /// the node and the nodes after it have cached is given up.
    pub fn set_node_parameter(&mut self, node_handle: &NodeHandle<T>, name: &str, value: &str) -> (result:
        Result<(), HardeenError>)
        requires
            old(self).wf(),
        ensures
            final(self).wf(),
            old(self).caches_valid() ==> final(self).caches_valid(),
            !old(self).has_node(*node_handle) ==> result == Err::<(), _>(
                HardeenError::InvalidHandle,
            ) && *final(self) == *old(self),
            old(self).has_node(*node_handle) && old(self).node(*node_handle).lawful() ==> result
                == if !old(self).node(*node_handle).has_parameter(name@) {
                Err::<(), _>(HardeenError::NodeParameterDoesNotExist)
            } else if old(self).node(*node_handle).canonical(name@, value@) is None {
                Err::<(), _>(HardeenError::ParseError)
            } else {
                Ok::<(), HardeenError>(())
            },
            result is Ok && old(self).node(*node_handle).lawful() ==> final(self).node(
                *node_handle,
            ).parameter_text(name@) == old(self).node(*node_handle).canonical(name@, value@)->0,
            final(self).nodes().same_layout(old(self).nodes()),
            final(self).subgraphs() == old(self).subgraphs(),
            final(self).output() == old(self).output(),
            final(self).exposed() == old(self).exposed(),
            forall|handle: NodeHandle<T>| #[trigger]
                old(self).has_node(handle) ==> {
                    &&& handle != *node_handle ==> final(self).node(handle).processor() == old(self).node(handle).processor()
                    &&& final(self).node(handle).input() == old(self).node(handle).input()
                    &&& final(self).node(handle).outputs() == old(self).node(handle).outputs()
                    &&& forall|parameter: Seq<char>|
                        final(self).node(handle).has_parameter(parameter) == old(self).node(
                            handle,
                        ).has_parameter(parameter)
                    &&& final(self).node(handle).cached() == if result is Ok && old(self).reaches(
                        *node_handle,
                        handle,
                    ) {
                        None
                    } else {
                        old(self).node(handle).cached()
                    }
                },
    {
        let ghost before = *old(self);
        proof {
            before.lemma_wf();
        }
        if !self.is_handle_valid(node_handle) {
            return Err(HardeenError::InvalidHandle);
        }
        let result = match self.nodes.get_mut(node_handle) {
            Err(_) => Err(HardeenError::InvalidHandle),
            Ok(node) => node.set_parameter(name, value),
        };
        let ghost changed = *self;
        proof {
            before.nodes().lemma_update_frame(
                node_handle.index,
                node_handle.generation,
                changed.node(*node_handle),
            );
            assert forall|handle: NodeHandle<T>| #[trigger]
                before.has_node(handle) && handle != *node_handle implies changed.node(handle)
                == before.node(handle) by {
                assert(changed.nodes().slots[handle.index as int]
                    == before.nodes().slots[handle.index as int]);
            }
            assert(before.same_nodes(&changed)) by {
                assert forall|handle: NodeHandle<T>| #[trigger] before.has_node(handle) implies {
                    &&& changed.node(handle).wf()
                    &&& changed.node(handle).has_subgraph() == before.node(handle).has_subgraph()
                    &&& changed.node(handle).has_subgraph() ==> changed.node(
                        handle,
                    ).subgraph_handle() == before.node(handle).subgraph_handle()
                } by {
                    assert(before.linked(handle));
                }
            }
            assert(before.same_edges(&changed));
            before.lemma_no_edge_more(&changed, *node_handle, *node_handle);
            before.lemma_same_subgraphs(&changed);
            before.lemma_same_wiring_walks(&changed);
        }
        if result.is_ok() {
            self.invalidate_cache(node_handle);
        }
        proof {
            assert(changed.has_node(*node_handle));
            assert(self.node(*node_handle).processor() == changed.node(*node_handle).processor());
            if result is Ok && before.node(*node_handle).lawful() {
                assert(changed.node(*node_handle).parameter_text(name@) == before.node(
                    *node_handle,
                ).canonical(name@, value@)->0);
                assert(self.node(*node_handle).parameter_text(name@) == changed.node(
                    *node_handle,
                ).parameter_text(name@));
            }
            assert forall|handle: NodeHandle<T>| #[trigger] before.has_node(handle) implies {
                &&& handle != *node_handle ==> self.node(handle).processor() == before.node(
                    handle,
                ).processor()
                &&& self.node(handle).input() == before.node(handle).input()
                &&& self.node(handle).outputs() == before.node(handle).outputs()
                &&& forall|parameter: Seq<char>|
                    self.node(handle).has_parameter(parameter) == before.node(handle).has_parameter(
                        parameter,
                    )
                &&& self.node(handle).cached() == if result is Ok && before.reaches(
                    *node_handle,
                    handle,
                ) {
                    None
                } else {
                    before.node(handle).cached()
                }
            } by {
                assert(changed.has_node(handle));
            }
        }
        result
    }

    /// Graphs with the same nodes, each with the same outputs, have the same
    /// walks.
    proof fn lemma_same_wiring_walks(&self, later: &Graph<T, P, S>)
        requires
            forall|handle: NodeHandle<T>| #[trigger]
                later.has_node(handle) <==> self.has_node(handle),
            forall|handle: NodeHandle<T>| #[trigger]
                self.has_node(handle) ==> later.node(handle).outputs() == self.node(handle).outputs(),
        ensures
            forall|from: NodeHandle<T>, to: NodeHandle<T>| #[trigger]
                later.reaches(from, to) == self.reaches(from, to),
    {
        assert forall|from: NodeHandle<T>, to: NodeHandle<T>| #[trigger]
            later.edge(from, to) implies self.edge(from, to) by {
            assert(self.has_node(from));
        }
        assert forall|from: NodeHandle<T>, to: NodeHandle<T>| #[trigger]
            self.edge(from, to) implies later.edge(from, to) by {}
        self.lemma_fewer_walks(later);
        later.lemma_fewer_walks(self);
    }

    pub fn get_node_parameter(&self, node_handle: &NodeHandle<T>, name: &str) -> (result: Result<
        String,
        HardeenError,
    >)
        requires
            self.wf(),
        ensures
            !self.has_node(*node_handle) ==> result == Err::<String, _>(HardeenError::InvalidHandle),
            self.has_node(*node_handle) && self.node(*node_handle).lawful() && !self.node(
                *node_handle,
            ).has_parameter(name@) ==> result == Err::<String, _>(
                HardeenError::NodeParameterDoesNotExist,
            ),
            self.has_node(*node_handle) && self.node(*node_handle).lawful() && self.node(
                *node_handle,
            ).has_parameter(name@) ==> result is Ok && result->Ok_0@ == self.node(
                *node_handle,
            ).parameter_text(name@),
    {
        match self.nodes.get(node_handle) {
            Err(_) => Err(HardeenError::InvalidHandle),
            Ok(node) => node.get_parameter(name),
        }
    }

    /// Sets the parameter that an exposed name stands for. Where that
    /// succeeds, what its node and the nodes after it have cached is given
    /// up.
    pub fn set_exposed_parameter(&mut self, name: &str, value: &str) -> (result: Result<
        (),
        HardeenError,
    >)
        requires
            old(self).wf(),
        ensures
            final(self).wf(),
            old(self).caches_valid() ==> final(self).caches_valid(),
            final(self).nodes().same_layout(old(self).nodes()),
            final(self).subgraphs() == old(self).subgraphs(),
            final(self).output() == old(self).output(),
            final(self).exposed() == old(self).exposed(),
            match Self::alias_position(old(self).exposed(), name@) {
                None => result == Err::<(), _>(HardeenError::ExposedParameterDoesNotExist) && *final(self) == *old(self),
                Some(at) => {
                    let target = old(self).exposed()[at].target();
                    let parameter = old(self).exposed()[at].parameter();
                    &&& !old(self).has_node(target) ==> result == Err::<(), _>(
                        HardeenError::InvalidHandle,
                    )
                    &&& old(self).has_node(target) && old(self).node(target).lawful() ==> result
                        == if !old(self).node(target).has_parameter(parameter) {
                        Err::<(), _>(HardeenError::NodeParameterDoesNotExist)
                    } else if old(self).node(target).canonical(parameter, value@) is None {
                        Err::<(), _>(HardeenError::ParseError)
                    } else {
                        Ok::<(), HardeenError>(())
                    }
                    &&& result is Ok && old(self).node(target).lawful() ==> final(self).node(
                        target,
                    ).parameter_text(parameter) == old(self).node(target).canonical(
                        parameter,
                        value@,
                    )->0
                    &&& forall|handle: NodeHandle<T>| #[trigger]
                        old(self).has_node(handle) ==> {
                            &&& final(self).node(handle).input() == old(self).node(handle).input()
                            &&& final(self).node(handle).outputs() == old(self).node(
                                handle,
                            ).outputs()
                            &&& final(self).node(handle).cached() == if result is Ok && old(self).reaches(target, handle) {
                                None
                            } else {
                                old(self).node(handle).cached()
                            }
                        }
                },
            },
    {
        match self.find_alias(name) {
            None => Err(HardeenError::ExposedParameterDoesNotExist),
            Some(at) => {
                let node_handle = self.exposed_parameters[at].node_handle;
                let parameter_name = self.exposed_parameters[at].parameter_name.clone();
                self.set_node_parameter(&node_handle, parameter_name.as_str(), value)
            },
        }
    }

    /// A ranking that rises along every edge, where there is one.
    pub closed spec fn ranking(&self) -> spec_fn(int) -> nat {
        choose|rank: spec_fn(int) -> nat| self.rising(rank)
    }

    /// The inputs of a node rank below it, and the graph of a subgraph
    /// processor is a part of the graph.
    pub proof fn lemma_descend(&self, handle: NodeHandle<T>)
        requires
            self.wf(),
            self.has_node(handle),
        ensures
            forall|i: int|
                0 <= i < self.node(handle).inputs().len() ==> self.has_node(
                    #[trigger] self.node(handle).inputs()[i],
                ) && (self.ranking())(self.node(handle).inputs()[i].index as int) < (
                self.ranking())(handle.index as int),
            self.node(handle).has_subgraph() ==> self.has_subgraph(
                self.node(handle).subgraph_handle(),
            )
                && self.subgraph(self.node(handle).subgraph_handle()).wf()
                && decreases_to!(*self => self.subgraph(self.node(handle).subgraph_handle())),
    {
        self.lemma_wf();
        assert(self.linked(handle));
        assert(self.rising(self.ranking()));
        assert forall|i: int| 0 <= i < self.node(handle).inputs().len() implies self.has_node(
            #[trigger] self.node(handle).inputs()[i],
        ) && (self.ranking())(self.node(handle).inputs()[i].index as int) < (self.ranking())(
            handle.index as int,
        ) by {
            let input = self.node(handle).inputs()[i];
            assert(self.node(input).outputs().contains(handle));
            assert(self.edge(input, handle));
        }
        if self.node(handle).has_subgraph() {
            let inner = self.node(handle).subgraph_handle();
            match self.subgraphs {
                Some(subgraphs) => {
                    subgraphs.lemma_slot_decreases(inner.index as int);
                },
                None => {},
            }
        }
    }

    /// Whether `output` is a possible outcome of evaluating a node: what the
    /// node has cached, where caches are used and it has cached something;
    /// or else a possible output of its processor for possible outcomes of
    /// evaluating its inputs in their order and, with a subgraph processor,
    /// for as many possible outcomes of evaluating the output node of the
    /// subgraph without caches as the processor wants, or for none where the
    /// subgraph has no output node.
    pub open spec fn evaluates(&self, handle: NodeHandle<T>, use_caches: bool, output: T) -> bool
        decreases self, (self.ranking())(handle.index as int), 3nat,
    {
        if !(self.wf() && self.has_node(handle)) {
            false
        } else if !self.node(handle).satisfied() {
            false
        } else if use_caches && self.node(handle).cached() is Some {
            output == *self.node(handle).cached()->0
        } else {
            exists|inputs: Seq<T>|
                named(inputs) && self.feeds(handle, use_caches, inputs) && self.runs_to(
                    handle,
                    inputs,
                    output,
                )
        }
    }

    /// Whether `inputs` are possible outcomes of evaluating the inputs of a
    /// node, in their order.
    pub open spec fn feeds(&self, handle: NodeHandle<T>, use_caches: bool, inputs: Seq<T>) -> bool
        decreases self, (self.ranking())(handle.index as int), 0nat,
    {
        if !(self.wf() && self.has_node(handle)) {
            false
        } else {
            &&& inputs.len() == self.node(handle).inputs().len()
            &&& forall|i: int|
                0 <= i < inputs.len() ==> {
                    proof {
                        self.lemma_descend(handle);
                    }
                    self.evaluates(self.node(handle).inputs()[i], use_caches, #[trigger] inputs[i])
                }
        }
    }

    /// Whether `output` is a possible output of the processor of a node for
    /// these inputs.
    pub open spec fn runs_to(&self, handle: NodeHandle<T>, inputs: Seq<T>, output: T) -> bool
        decreases self, (self.ranking())(handle.index as int), 2nat,
    {
        if !(self.wf() && self.has_node(handle)) {
            false
        } else if !self.node(handle).has_subgraph() {
            self.node(handle).produces(inputs, output)
        } else {
            exists|inner: Seq<T>|
                named(inner) && self.inner_outputs(handle, inputs, inner) && self.node(
                    handle,
                ).produces_with(inputs, inner, output)
        }
    }

    /// Whether `inner` are possible outcomes of the runs of its subgraph
    /// that a subgraph processor wants for these inputs.
    pub open spec fn inner_outputs(&self, handle: NodeHandle<T>, inputs: Seq<T>, inner: Seq<T>) -> bool
        decreases self, (self.ranking())(handle.index as int), 1nat,
    {
        if !(self.wf() && self.has_node(handle) && self.node(handle).has_subgraph()) {
            false
        } else {
            let subgraph = self.subgraph(self.node(handle).subgraph_handle());
            match subgraph.output() {
                None => inner.len() == 0,
                Some(start) => (self.node(handle).lawful() ==> inner.len() == self.node(
                    handle,
                ).subgraph_runs(inputs)) && forall|j: int|
                    0 <= j < inner.len() ==> {
                        proof {
                            self.lemma_descend(handle);
                        }
                        subgraph.evaluates(start, false, #[trigger] inner[j])
                    },
            }
        }
    }

    /// Why evaluating a node fails, if it does: the node does not exist, or
    /// its input is not satisfied, or nothing is cached for it to use and
    /// evaluating one of its inputs fails, or a run of its subgraph from
    /// the output node of that fails.
    pub open spec fn failure(&self, handle: NodeHandle<T>, use_caches: bool) -> Option<HardeenError>
        decreases self, (self.ranking())(handle.index as int), 1nat,
    {
        if !self.wf() {
            None
        } else if !self.has_node(handle) {
            Some(HardeenError::InvalidHandle)
        } else if !self.node(handle).satisfied() {
            Some(HardeenError::NodeInputNotSatisfied)
        } else if use_caches && self.node(handle).cached() is Some {
            None
        } else if exists|i: int|
            0 <= i < self.node(handle).inputs().len() && {
                proof {
                    self.lemma_descend(handle);
                }
                self.failure(#[trigger] self.node(handle).inputs()[i], use_caches) is Some
            } {
            Some(HardeenError::ErrorProcessingNode)
        } else if self.inner_fails(handle) {
            Some(HardeenError::ErrorProcessingNode)
        } else {
            None
        }
    }

    /// Whether the subgraph of a node has an output node whose evaluation
    /// without caches fails.
    pub open spec fn inner_fails(&self, handle: NodeHandle<T>) -> bool
        decreases self, (self.ranking())(handle.index as int), 0nat,
    {
        if !(self.wf() && self.has_node(handle) && self.node(handle).has_subgraph()) {
            false
        } else {
            let subgraph = self.subgraph(self.node(handle).subgraph_handle());
            match subgraph.output() {
                None => false,
                Some(start) => {
                    proof {
                        self.lemma_descend(handle);
                    }
                    subgraph.failure(start, false) is Some
                },
            }
        }
    }

    /// How evaluating the graph ends: with an error where no output node is
    /// chosen or where evaluating the output node fails.
    pub open spec fn graph_failure(&self, use_caches: bool) -> Option<HardeenError> {
        match self.output() {
            None => Some(HardeenError::GraphOutputNotSet),
            Some(start) => self.failure(start, use_caches),
        }
    }

    /// What evaluation returns for a node that has cached something is what
    /// the node has cached, where caches are used; without caches, it is
    /// what the processor makes of the outcomes of evaluating the inputs.
    pub proof fn lemma_cache_correct(&self, handle: NodeHandle<T>, output: T)
        requires
            self.wf(),
            self.has_node(handle),
        ensures
            self.node(handle).cached() is Some && self.evaluates(handle, true, output) ==> output
                == *self.node(handle).cached()->0,
            self.evaluates(handle, false, output) <==> self.node(handle).satisfied() && exists|
                inputs: Seq<T>,
            |
                named(inputs) && self.feeds(handle, false, inputs) && self.runs_to(
                    handle,
                    inputs,
                    output,
                ),
    {
    }

    /// The handle of the node in a slot.
    pub open spec fn handle_of(&self, index: int) -> NodeHandle<T> {
        MarkedHandle {
            index: index as usize,
            generation: self.nodes().slots[index].generation,
            _marker: std::marker::PhantomData,
        }
    }

    /// What the nodes have cached is valid.
    pub open spec fn caches_valid(&self) -> bool {
        forall|handle: NodeHandle<T>| #[trigger]
            self.has_node(handle) && self.node(handle).cached() is Some ==> self.node(
                handle,
            ).cached()->0.valid()
    }

    /// Whether evaluation takes what the node has cached and leaves its
    /// processor alone.
    pub open spec fn served(&self, handle: NodeHandle<T>, use_caches: bool) -> bool {
        use_caches && self.node(handle).cached() is Some
    }

    /// A walk along edges on which no node is served from its cache.
    pub open spec fn is_pull(&self, path: Seq<NodeHandle<T>>, use_caches: bool) -> bool {
        &&& self.is_path(path)
        &&& forall|i: int| 0 <= i < path.len() ==> !self.served(#[trigger] path[i], use_caches)
    }

    /// Evaluating `start` runs the processor of `handle`: a walk leads from
    /// `handle` to `start` on which no node is served from its cache.
    pub open spec fn pulled(&self, start: NodeHandle<T>, handle: NodeHandle<T>, use_caches: bool) -> bool {
        exists|path: Seq<NodeHandle<T>>|
            #![trigger self.is_pull(path, use_caches)]
            self.is_pull(path, use_caches) && path[0] == handle && path.last() == start
    }

    /// Evaluating a node that is not served from its cache runs its
    /// processor.
    pub proof fn lemma_pull_itself(&self, handle: NodeHandle<T>, use_caches: bool)
        requires
            self.has_node(handle),
            !self.served(handle, use_caches),
        ensures
            self.pulled(handle, handle, use_caches),
    {
        let path = seq![handle];
        assert(self.is_pull(path, use_caches));
        assert(path[0] == handle && path.last() == handle);
    }

    /// Evaluating a node that is served from its cache runs no processor.
    pub proof fn lemma_pull_served(&self, start: NodeHandle<T>, handle: NodeHandle<T>, use_caches: bool)
        requires
            self.served(start, use_caches),
        ensures
            !self.pulled(start, handle, use_caches),
    {
        if self.pulled(start, handle, use_caches) {
            let path = choose|path: Seq<NodeHandle<T>>|
                #![trigger self.is_pull(path, use_caches)]
                self.is_pull(path, use_caches) && path[0] == handle && path.last() == start;
            assert(!self.served(path[path.len() - 1], use_caches));
        }
    }

    /// What evaluating an input of a node runs, evaluating the node runs
    /// too, unless the node is served from its cache.
    pub proof fn lemma_pull_on(
        &self,
        input: NodeHandle<T>,
        node: NodeHandle<T>,
        handle: NodeHandle<T>,
        use_caches: bool,
    )
        requires
            self.pulled(input, handle, use_caches),
            self.edge(input, node),
            !self.served(node, use_caches),
        ensures
            self.pulled(node, handle, use_caches),
    {
        let path = choose|path: Seq<NodeHandle<T>>|
            #![trigger self.is_pull(path, use_caches)]
            self.is_pull(path, use_caches) && path[0] == handle && path.last() == input;
        let longer = path.push(node);
        assert forall|i: int|
            #![trigger longer[i]]
            0 <= i < longer.len() - 1 implies self.edge(longer[i], longer[i + 1]) by {
            if i < path.len() - 1 {
                assert(longer[i] == path[i]);
                assert(longer[i + 1] == path[i + 1]);
            }
        }
        assert(longer[0] == path[0]);
        assert forall|i: int| 0 <= i < longer.len() implies !self.served(
            #[trigger] longer[i],
            use_caches,
        ) by {
            if i < path.len() {
                assert(longer[i] == path[i]);
            }
        }
        assert(self.is_pull(longer, use_caches));
        assert(longer[0] == handle && longer.last() == node);
    }

    /// What evaluating a node runs is its own processor or what evaluating
    /// one of its inputs runs.
    pub proof fn lemma_pull_split(&self, node: NodeHandle<T>, handle: NodeHandle<T>, use_caches: bool)
        requires
            self.wf(),
            self.pulled(node, handle, use_caches),
        ensures
            self.has_node(node),
            self.has_node(handle),
            !self.served(node, use_caches),
            handle == node || exists|k: int|
                0 <= k < self.node(node).inputs().len() && #[trigger] self.pulled(
                    self.node(node).inputs()[k],
                    handle,
                    use_caches,
                ),
    {
        self.lemma_wf();
        let path = choose|path: Seq<NodeHandle<T>>|
            #![trigger self.is_pull(path, use_caches)]
            self.is_pull(path, use_caches) && path[0] == handle && path.last() == node;
        assert(!self.served(path[path.len() - 1], use_caches));
        if path.len() == 1 {
        } else {
            let input = path[path.len() - 2];
            assert(self.edge(path[path.len() - 2], path[path.len() - 2 + 1]));
            let shorter = path.drop_last();
            assert forall|i: int|
                #![trigger shorter[i]]
                0 <= i < shorter.len() - 1 implies self.edge(shorter[i], shorter[i + 1]) by {
                assert(self.edge(path[i], path[i + 1]));
            }
            assert forall|i: int| 0 <= i < shorter.len() implies !self.served(
                #[trigger] shorter[i],
                use_caches,
            ) by {
                assert(shorter[i] == path[i]);
            }
            assert(shorter[0] == path[0]);
            assert(self.is_pull(shorter, use_caches));
            assert(shorter[0] == handle && shorter.last() == input);
            assert(self.pulled(input, handle, use_caches));
            assert(self.linked(input));
            let at = choose|at: int|
                0 <= at < self.node(input).outputs().len() && self.node(input).outputs()[at] == node;
            assert(self.node(self.node(input).outputs()[at]).inputs().contains(input));
            let k = choose|k: int|
                0 <= k < self.node(node).inputs().len() && self.node(node).inputs()[k] == input;
            assert(self.pulled(self.node(node).inputs()[k], handle, use_caches));
        }
    }

    /// The outputs found for nodes, by their slots, are valid, and are
    /// possible outcomes of evaluating them; and with the output of a node,
    /// those of all nodes are found whose processors evaluating it runs.
    pub open spec fn found_valid(&self, found: Seq<Option<Rc<T>>>, use_caches: bool) -> bool {
        &&& found.len() == self.nodes().slots.len()
        &&& forall|i: int|
            0 <= i < found.len() && (#[trigger] found[i]) is Some ==> self.has_node(
                self.handle_of(i),
            ) && found[i]->0.valid() && self.evaluates(self.handle_of(i), use_caches, *found[i]->0)
        &&& forall|i: int, handle: NodeHandle<T>|
            0 <= i < found.len() && (#[trigger] found[i]) is Some && #[trigger] self.pulled(
                self.handle_of(i),
                handle,
                use_caches,
            ) ==> found[handle.index as int] is Some
    }

    /// Between `before` and `after`, evaluating `start` went on: what was
    /// found is found still, and what is found now and was not before is
    /// the output of a node whose processor evaluating `start` runs.
    pub open spec fn found_grown(
        &self,
        before: Seq<Option<Rc<T>>>,
        after: Seq<Option<Rc<T>>>,
        start: NodeHandle<T>,
        use_caches: bool,
    ) -> bool {
        &&& after.len() == before.len()
        &&& forall|i: int| 0 <= i < before.len() && (#[trigger] before[i]) is Some ==> after[i] is Some
        &&& forall|i: int|
            0 <= i < after.len() && (#[trigger] after[i]) is Some ==> before[i] is Some
                || self.pulled(start, self.handle_of(i), use_caches)
    }

    /// Evaluates a node: returns what it has cached, where caches are used
    /// and it has cached something, and else runs its processor on the
    /// outcomes of evaluating its inputs. What is found for a node is kept
    /// in `found`, and used again where caches are used.
    fn process_node(
        &self,
        node_handle: &NodeHandle<T>,
        use_caches: bool,
        found: &mut Vec<Option<Rc<T>>>,
    ) -> (result: Result<Rc<T>, HardeenError>)
        requires
            self.wf(),
            use_caches ==> self.caches_valid(),
            self.found_valid(old(found)@, use_caches),
        ensures
            self.found_valid(final(found)@, use_caches),
            result matches Ok(output) ==> output.valid(),
            self.failure(*node_handle, use_caches) is None ==> result is Ok,
            result matches Err(error) ==> self.failure(*node_handle, use_caches) == Some(error),
            result matches Ok(output) ==> self.evaluates(*node_handle, use_caches, *output) && (
            final(found)@[node_handle.index as int] == Some(output) || (use_caches && self.node(
                *node_handle,
            ).cached() == Some(output))),
            self.found_grown(old(found)@, final(found)@, *node_handle, use_caches),
            result is Ok ==> forall|handle: NodeHandle<T>| #[trigger]
                self.pulled(*node_handle, handle, use_caches) ==> final(found)@[handle.index as int]
                    is Some,
        decreases self, 0nat, (self.ranking())(node_handle.index as int),
    {
        let ghost first = found@;
        let node = match self.nodes.get(node_handle) {
            Ok(node) => node,
            Err(_) => {
                return Err(HardeenError::InvalidHandle);
            },
        };
        if !node.is_input_satisfied() {
            return Err(HardeenError::NodeInputNotSatisfied);
        }
        proof {
            self.lemma_wf();
            self.lemma_descend(*node_handle);
            assert(self.handle_of(node_handle.index as int) == *node_handle);
        }
        if use_caches {
            if let Some(cached) = node.get_cached_output() {
                proof {
                    assert forall|handle: NodeHandle<T>| #[trigger]
                        self.pulled(*node_handle, handle, use_caches) implies found@[handle.index as int]
                        is Some by {
                        self.lemma_pull_served(*node_handle, handle, use_caches);
                    }
                }
                return Ok(cached);
            }
            if let Some(before) = &found[node_handle.index] {
                proof {
                    assert forall|handle: NodeHandle<T>| #[trigger]
                        self.pulled(*node_handle, handle, use_caches) implies found@[handle.index as int]
                        is Some by {
                        assert(found@[node_handle.index as int] is Some);
                        assert(self.pulled(
                            self.handle_of(node_handle.index as int),
                            handle,
                            use_caches,
                        ));
                    }
                }
                return Ok(before.clone());
            }
        }
        proof {
            assert(self.linked(*node_handle));
        }
        let input_handles = node.get_all_input_handles();
        let mut inputs: Vec<Rc<T>> = Vec::new();
        let mut current: usize = 0;
        let length = input_handles.len();
        while current < length
            invariant
                current <= length,
                length == input_handles@.len(),
                input_handles@ == self.node(*node_handle).inputs(),
                self.wf(),
                self.has_node(*node_handle),
                self.node(*node_handle).satisfied(),
                !(use_caches && self.node(*node_handle).cached() is Some),
                use_caches ==> self.caches_valid(),
                self.found_valid(found@, use_caches),
                first == old(found)@,
                self.found_grown(first, found@, *node_handle, use_caches),
                forall|k: int, handle: NodeHandle<T>|
                    0 <= k < current && #[trigger] self.pulled(
                        #[trigger] input_handles@[k],
                        handle,
                        use_caches,
                    ) ==> found@[handle.index as int] is Some,
                inputs@.len() == current,
                all_valid(inputs@),
                forall|i: int|
                    0 <= i < current ==> self.evaluates(
                        input_handles@[i],
                        use_caches,
                        *#[trigger] inputs@[i],
                    ),
                self.failure(*node_handle, use_caches) is None ==> forall|i: int|
                    0 <= i < length ==> self.failure(#[trigger] input_handles@[i], use_caches)
                        is None,
            decreases length - current,
        {
            proof {
                self.lemma_descend(*node_handle);
            }
            let ghost earlier = found@;
            let outcome = self.process_node(&input_handles[current], use_caches, found);
            proof {
                let input = input_handles@[current as int];
                self.lemma_wf();
                assert(self.linked(*node_handle));
                assert(self.has_node(self.node(*node_handle).inputs()[current as int]));
                assert(self.edge(input, *node_handle));
                assert forall|i: int| 0 <= i < found@.len() && (#[trigger] found@[i])
                    is Some implies first[i] is Some || self.pulled(
                    *node_handle,
                    self.handle_of(i),
                    use_caches,
                ) by {
                    if earlier[i] is None {
                        self.lemma_pull_on(input, *node_handle, self.handle_of(i), use_caches);
                    }
                }
                assert forall|k: int, handle: NodeHandle<T>|
                    0 <= k < current && #[trigger] self.pulled(
                        #[trigger] input_handles@[k],
                        handle,
                        use_caches,
                    ) implies found@[handle.index as int] is Some by {
                    assert(earlier[handle.index as int] is Some);
                    self.lemma_pull_split(input_handles@[k], handle, use_caches);
                }
            }
            match outcome {
                Ok(output) => {
                    inputs.push(output);
                },
                Err(_) => {
                    proof {
                        assert(self.failure(
                            self.node(*node_handle).inputs()[current as int],
                            use_caches,
                        ) is Some);
                    }
                    return Err(HardeenError::ErrorProcessingNode);
                },
            }
            current += 1;
        }
        proof {
            assert(self.feeds(*node_handle, use_caches, values(inputs@))) by {
                assert forall|i: int| 0 <= i < values(inputs@).len() implies self.evaluates(
                    self.node(*node_handle).inputs()[i],
                    use_caches,
                    #[trigger] values(inputs@)[i],
                ) by {
                    assert(values(inputs@)[i] == *inputs@[i]);
                }
            }
        }
        let ghost fed = values(inputs@);
        let result = match node.get_processor_component() {
            ProcessorComponent::BasicProcessor(processor) => {
                let output = processor.run(inputs);
                proof {
                    assert(self.node(*node_handle).produces(fed, *output));
                    assert(self.runs_to(*node_handle, fed, *output));
                }
                output
            },
            ProcessorComponent::SubgraphProcessor(processor, subgraph_handle) => {
                let runs = processor.subgraph_runs(&inputs);
                let mut inner: Vec<Rc<T>> = Vec::new();
                match self.get_subgraph(subgraph_handle) {
                    Ok(subgraph) => {
                        if subgraph.is_output_node_set() {
                            let mut run: usize = 0;
                            while run < runs
                                invariant
                                    run <= runs,
                                    inner@.len() == run,
                                    self.wf(),
                                    self.has_node(*node_handle),
                                    self.node(*node_handle).satisfied(),
                                    !(use_caches && self.node(*node_handle).cached() is Some),
                                    self.node(*node_handle).has_subgraph(),
                                    *subgraph == self.subgraph(
                                        self.node(*node_handle).subgraph_handle(),
                                    ),
                                    subgraph.wf(),
                                    subgraph.output() is Some,
                                    self.found_valid(found@, use_caches),
                                    first == old(found)@,
                                    self.found_grown(first, found@, *node_handle, use_caches),
                                    all_valid(inner@),
                                    all_valid(inputs@),
                                    decreases_to!(*self => *subgraph),
                                    forall|j: int|
                                        0 <= j < run ==> subgraph.evaluates(
                                            subgraph.output()->0,
                                            false,
                                            *#[trigger] inner@[j],
                                        ),
                                decreases runs - run,
                            {
                                match subgraph.evaluate(false).0 {
                                    Ok(output) => {
                                        inner.push(output);
                                    },
                                    Err(_) => {
                                        proof {
                                            assert(self.inner_fails(*node_handle));
                                        }
                                        return Err(HardeenError::ErrorProcessingNode);
                                    },
                                }
                                run += 1;
                            }
                        }
                    },
                    Err(_) => {},
                }
                proof {
                    assert(self.inner_outputs(*node_handle, fed, values(inner@))) by {
                        let subgraph = self.subgraph(self.node(*node_handle).subgraph_handle());
                        if subgraph.output() is Some {
                            assert forall|j: int|
                                0 <= j < values(inner@).len() implies subgraph.evaluates(
                                subgraph.output()->0,
                                false,
                                #[trigger] values(inner@)[j],
                            ) by {
                                assert(values(inner@)[j] == *inner@[j]);
                            }
                        }
                    }
                }
                let ghost made = values(inner@);
                let output = processor.run(inputs, inner);
                proof {
                    assert(self.node(*node_handle).produces_with(fed, made, *output));
                    assert(named(made));
                    assert(self.runs_to(*node_handle, fed, *output));
                }
                output
            },
        };
        proof {
            assert(named(fed));
            assert(self.evaluates(*node_handle, use_caches, *result));
        }
        let ghost settled = found@;
        found.set(node_handle.index, Some(result.clone()));
        proof {
            self.lemma_wf();
            self.lemma_pull_itself(*node_handle, use_caches);
            assert forall|handle: NodeHandle<T>| #[trigger]
                self.pulled(*node_handle, handle, use_caches) implies found@[handle.index as int]
                is Some by {
                self.lemma_pull_split(*node_handle, handle, use_caches);
                if handle != *node_handle {
                    let k = choose|k: int|
                        0 <= k < self.node(*node_handle).inputs().len() && #[trigger] self.pulled(
                            self.node(*node_handle).inputs()[k],
                            handle,
                            use_caches,
                        );
                    assert(self.pulled(input_handles@[k], handle, use_caches));
                    assert(settled[handle.index as int] is Some);
                }
            }
            assert forall|i: int, handle: NodeHandle<T>|
                0 <= i < found@.len() && (#[trigger] found@[i]) is Some && #[trigger] self.pulled(
                    self.handle_of(i),
                    handle,
                    use_caches,
                ) implies found@[handle.index as int] is Some by {
                self.lemma_pull_split(self.handle_of(i), handle, use_caches);
                if i != node_handle.index {
                    assert(settled[i] is Some);
                    assert(settled[handle.index as int] is Some);
                }
            }
        }
        Ok(result)
    }

    /// Evaluates the graph from its output node, without writing to any
    /// cache. Returns the outcome, and what was found for the nodes on the
    /// way, by their slots.
    fn evaluate(&self, use_caches: bool) -> (result: (
        Result<Rc<T>, HardeenError>,
        Vec<Option<Rc<T>>>,
    ))
        requires
            self.wf(),
            use_caches ==> self.caches_valid(),
        ensures
            self.found_valid(result.1@, use_caches),
            result.0 matches Ok(output) ==> output.valid(),
            self.graph_failure(use_caches) is None ==> result.0 is Ok,
            result.0 matches Err(error) ==> self.graph_failure(use_caches) == Some(error),
            result.0 matches Ok(output) ==> self.output() is Some && self.evaluates(
                self.output()->0,
                use_caches,
                *output,
            ) && (result.1@[self.output()->0.index as int] == Some(output) || (use_caches
                && self.node(self.output()->0).cached() == Some(output))),
            forall|i: int|
                0 <= i < result.1@.len() && (#[trigger] result.1@[i]) is Some ==> self.output()
                    is Some && self.pulled(self.output()->0, self.handle_of(i), use_caches),
            result.0 is Ok ==> forall|handle: NodeHandle<T>| #[trigger]
                self.pulled(self.output()->0, handle, use_caches) ==> result.1@[handle.index as int]
                    is Some,
        decreases self, 1nat, 0nat,
    {
        let mut found: Vec<Option<Rc<T>>> = Vec::new();
        let length = self.nodes.get_length();
        let mut made: usize = 0;
        while made < length
            invariant
                made <= length,
                length == self.nodes().slots.len(),
                found@.len() == made,
                forall|i: int| 0 <= i < made ==> (#[trigger] found@[i]) is None,
            decreases length - made,
        {
            found.push(None);
            made += 1;
        }
        match self.output_node_handle {
            None => (Err(HardeenError::GraphOutputNotSet), found),
            Some(start) => {
                let result = self.process_node(&start, use_caches, &mut found);
                (result, found)
            },
        }
    }

    /// Evaluates the graph from its output node. Every node that is
    /// evaluated on the way caches what was found for it; where evaluation
    /// fails, no cache changes.
    pub fn process_graph_output(&mut self, use_caches: bool) -> (result: Result<Rc<T>, HardeenError>)
        requires
            old(self).wf(),
            old(self).caches_valid(),
        ensures
            final(self).wf(),
            final(self).caches_valid(),
            result matches Ok(output) ==> output.valid(),
            old(self).same_but_caches(final(self)),
            old(self).output() is None ==> result == Err::<Rc<T>, _>(
                HardeenError::GraphOutputNotSet,
            ),
            old(self).graph_failure(use_caches) is None ==> result is Ok,
            result matches Err(error) ==> old(self).graph_failure(use_caches) == Some(error)
                && *final(self) == *old(self),
            result matches Ok(output) ==> {
                &&& old(self).output() is Some
                &&& old(self).evaluates(old(self).output()->0, use_caches, *output)
                &&& final(self).node(old(self).output()->0).cached() == Some(output)
                &&& forall|handle: NodeHandle<T>| #[trigger]
                    old(self).has_node(handle) ==> if old(self).pulled(
                        old(self).output()->0,
                        handle,
                        use_caches,
                    ) {
                        final(self).node(handle).cached() is Some && old(self).evaluates(
                            handle,
                            use_caches,
                            *final(self).node(handle).cached()->0,
                        )
                    } else {
                        final(self).node(handle).cached() == old(self).node(handle).cached()
                    }
            },
            result is Ok && old(self).served(old(self).output()->0, use_caches) ==> *final(self)
                == *old(self),
    {
        let ghost before = *old(self);
        let (result, found) = self.evaluate(use_caches);
        let output = match result {
            Err(error) => {
                proof {
                    before.lemma_same_nodes_itself();
                }
                return Err(error);
            },
            Ok(output) => output,
        };
        let length = found.len();
        let mut current: usize = 0;
        proof {
            before.lemma_wf();
        }
        while current < length
            invariant
                current <= length,
                length == found@.len(),
                before.wf(),
                before.found_valid(found@, use_caches),
                before.caches_valid(),
                self.wf(),
                self.subgraphs == before.subgraphs,
                before.same_but_caches(self),
                (forall|i: int| 0 <= i < current ==> (#[trigger] found@[i]) is None) ==> *self
                    == before,
                forall|handle: NodeHandle<T>| #[trigger]
                    before.has_node(handle) ==> self.node(handle).cached() == if handle.index
                        < current && found@[handle.index as int] is Some {
                        found@[handle.index as int]
                    } else {
                        before.node(handle).cached()
                    },
            decreases length - current,
        {
            let ghost previous = *self;
            if let Some(value) = &found[current] {
                if let Some(handle) = self.nodes.get_handle_for_index(current) {
                    let shared = value.clone();
                    proof {
                        previous.lemma_wf();
                        assert(handle == before.handle_of(current as int));
                    }
                    match self.nodes.get_mut(&handle) {
                        Ok(node) => {
                            node.set_cached_output(shared);
                        },
                        Err(_) => {},
                    }
                    proof {
                        previous.nodes().lemma_update_frame(
                            handle.index,
                            handle.generation,
                            self.node(handle),
                        );
                        assert(before.same_but_caches(self)) by {
                            assert forall|other: NodeHandle<T>| #[trigger]
                                before.has_node(other) implies {
                                &&& self.node(other).processor() == before.node(other).processor()
                                &&& self.node(other).input() == before.node(other).input()
                                &&& self.node(other).outputs() == before.node(other).outputs()
                            } by {
                                assert(previous.has_node(other));
                                if other.index != handle.index {
                                    assert(self.nodes().slots[other.index as int]
                                        == previous.nodes().slots[other.index as int]);
                                }
                            }
                        }
                        before.lemma_caches_only(self);
                        assert forall|other: NodeHandle<T>| #[trigger]
                            before.has_node(other) implies self.node(other).cached() == if other.index
                            < current + 1 && found@[other.index as int] is Some {
                            found@[other.index as int]
                        } else {
                            before.node(other).cached()
                        } by {
                            assert(previous.has_node(other));
                            if other.index != handle.index {
                                assert(self.nodes().slots[other.index as int]
                                    == previous.nodes().slots[other.index as int]);
                            } else {
                                assert(other == handle);
                            }
                        }
                    }
                }
            }
            current += 1;
        }
        proof {
            let start = before.output()->0;
            assert forall|handle: NodeHandle<T>| #[trigger]
                before.has_node(handle) implies if before.pulled(start, handle, use_caches) {
                self.node(handle).cached() is Some && before.evaluates(
                    handle,
                    use_caches,
                    *self.node(handle).cached()->0,
                )
            } else {
                self.node(handle).cached() == before.node(handle).cached()
            } by {
                assert(before.handle_of(handle.index as int) == handle);
            }
            if before.served(start, use_caches) {
                assert forall|i: int| 0 <= i < length implies (#[trigger] found@[i]) is None by {
                    before.lemma_pull_served(start, before.handle_of(i), use_caches);
                }
            }
            assert(self.caches_valid()) by {
                assert forall|handle: NodeHandle<T>| #[trigger]
                    self.has_node(handle) && self.node(handle).cached() is Some implies self.node(
                    handle,
                ).cached()->0.valid() by {
                    assert(before.has_node(handle));
                    if found@[handle.index as int] is Some {
                        assert(before.handle_of(handle.index as int) == handle);
                    }
                }
            }
            before.lemma_descend(before.output()->0);
        }
        Ok(output)
    }

    /// Puts a node into the graph, with no edge to or from it.
    fn add_node(&mut self, node: Node<T, P, S>) -> (handle: NodeHandle<T>)
        requires
            old(self).wf(),
            node.wf(),
            node.inputs() == Seq::<NodeHandle<T>>::empty(),
            node.outputs() == Seq::<NodeHandle<T>>::empty(),
            node.cached() is None,
            node.has_subgraph() ==> old(self).has_subgraph(node.subgraph_handle()),
        ensures
            final(self).wf(),
            old(self).caches_valid() ==> final(self).caches_valid(),
            parts(handle) == old(self).nodes().next_handle(),
            final(self).nodes() == old(self).nodes().insert(node),
            final(self).has_node(handle),
            !old(self).has_node(handle),
            final(self).node(handle) == node,
            final(self).subgraphs == old(self).subgraphs,
            final(self).output() == old(self).output(),
            final(self).exposed() == old(self).exposed(),
    {
        let ghost before = *old(self);
        proof {
            self.nodes@.lemma_insert_frame(node);
        }
        let handle = self.nodes.add_entry(node);
        proof {
            assert forall|h: NodeHandle<T>| self.has_node(h) implies #[trigger] self.linked(h) by {
                if h != handle {
                    assert(before.has_node(h));
                    assert(before.linked(h));
                    assert(self.nodes().slots[h.index as int] == before.nodes().slots[h.index as int]);
                    assert forall|other: NodeHandle<T>| #[trigger]
                        before.has_node(other) && before.node(other).inputs().contains(
                            h,
                        ) implies self.node(other).inputs().contains(h) by {
                        assert(self.nodes().slots[other.index as int]
                            == before.nodes().slots[other.index as int]);
                    }
                    assert forall|other: NodeHandle<T>| #[trigger]
                        before.has_node(other) && before.node(other).outputs().contains(
                            h,
                        ) implies self.node(other).outputs().contains(h) by {
                        assert(self.nodes().slots[other.index as int]
                            == before.nodes().slots[other.index as int]);
                    }
                    before.lemma_stays_linked(self, h);
                }
            }
            assert forall|from: NodeHandle<T>, to: NodeHandle<T>| #[trigger]
                self.edge(from, to) implies before.edge(from, to) by {
                assert(from != handle);
                assert(before.has_node(from));
                assert(self.nodes().slots[from.index as int] == before.nodes().slots[from.index as int]);
                assert(before.linked(from));
                let k = choose|k: int|
                    0 <= k < before.node(from).outputs().len() && before.node(from).outputs()[k]
                        == to;
                assert(before.has_node(before.node(from).outputs()[k]));
            }
            before.lemma_fewer_edges(self);
            before.lemma_same_subgraphs(self);
            if before.caches_valid() {
                assert forall|h: NodeHandle<T>| #[trigger]
                    self.has_node(h) && self.node(h).cached() is Some implies self.node(
                    h,
                ).cached()->0.valid() by {
                    if h != handle {
                        assert(before.has_node(h));
                        assert(self.nodes().slots[h.index as int]
                            == before.nodes().slots[h.index as int]);
                    }
                }
            }
        }
        handle
    }

    pub fn add_checked_processor_node(&mut self, processor: P) -> (handle:
        NodeHandle<T>)
        requires
            old(self).wf(),
        ensures
            final(self).wf(),
            old(self).caches_valid() ==> final(self).caches_valid(),
            parts(handle) == old(self).nodes().next_handle(),
            final(self).nodes() == old(self).nodes().insert(final(self).node(handle)),
            final(self).has_node(handle),
            !old(self).has_node(handle),
            final(self).node(handle).processor() == ProcessorComponent::<
                T,
                P,
                S,
            >::BasicProcessor(processor),
            processor.lawful() ==> final(self).node(handle).starts_with(
                processor.spec_input_type(),
            ),
            !final(self).node(handle).has_subgraph(),
            final(self).node(handle).inputs() == Seq::<NodeHandle<T>>::empty(),
            final(self).node(handle).outputs() == Seq::<NodeHandle<T>>::empty(),
            final(self).node(handle).cached() is None,
            final(self).subgraphs() == old(self).subgraphs(),
            final(self).output() == old(self).output(),
            final(self).exposed() == old(self).exposed(),
    {
        self.add_node(Node::new_basic_processor_node(processor))
    }

    pub fn new() -> (graph: Graph<T, P, S>)
        ensures
            graph.wf(),
            graph.caches_valid(),
            graph.nodes() == Arena::<Node<T, P, S>>::empty(),
            graph.subgraphs() == Arena::<Graph<T, P, S>>::empty(),
            graph.output() is None,
            graph.exposed() == Seq::<ExposedParameter<T>>::empty(),
            graph.types() == Seq::<ProcessorTypeInfo>::empty(),
    {
        let graph = Graph {
            nodes: HandledVec::new(),
            exposed_parameters: Vec::new(),
            subgraphs: None,
            output_node_handle: None,
            processor_types: Vec::new(),
        };
        proof {
            let rank = |i: int| 0nat;
            assert(graph.rising(rank));
            assert(graph.falling(rank));
        }
        graph
    }

    /// The processor types that the graph has been told of.
    pub closed spec fn types(&self) -> Seq<ProcessorTypeInfo> {
        self.processor_types@
    }

    pub fn get_processor_types(&self) -> (types: &[ProcessorTypeInfo])
        ensures
            types@ == self.types(),
    {
        self.processor_types.as_slice()
    }

    pub fn get_node(&self, handle: &NodeHandle<T>) -> (result: Result<&Node<T, P, S>, HardeenError>)
        requires
            self.wf(),
        ensures
            self.has_node(*handle) ==> result == Ok::<_, HardeenError>(&self.node(*handle)),
            !self.has_node(*handle) ==> result == Err::<&Node<T, P, S>, _>(HardeenError::InvalidHandle),
    {
        match self.nodes.get(handle) {
            Ok(node) => Ok(node),
            Err(_) => Err(HardeenError::InvalidHandle),
        }
    }

    pub fn get_output_node(&self) -> (result: Result<&Node<T, P, S>, HardeenError>)
        requires
            self.wf(),
        ensures
            match self.output() {
                None => result == Err::<&Node<T, P, S>, _>(HardeenError::GraphOutputNotSet),
                Some(handle) => if self.has_node(handle) {
                    result == Ok::<_, HardeenError>(&self.node(handle))
                } else {
                    result == Err::<&Node<T, P, S>, _>(HardeenError::InvalidHandle)
                },
            },
    {
        match &self.output_node_handle {
            None => Err(HardeenError::GraphOutputNotSet),
            Some(handle) => match self.nodes.get(handle) {
                Err(_error) => Err(HardeenError::InvalidHandle),
                Ok(node) => Ok(node),
            },
        }
    }

    pub fn get_output_node_handle(&self) -> (handle: Option<NodeHandle<T>>)
        ensures
            handle == self.output(),
    {
        self.output_node_handle
    }

    pub fn is_output_node_set(&self) -> (set: bool)
        ensures
            set == self.output() is Some,
    {
        match self.output_node_handle {
            Some(_) => true,
            None => false,
        }
    }

    fn is_handle_valid(&self, handle: &NodeHandle<T>) -> (valid: bool)
        requires
            self.wf_here(),
        ensures
            valid == self.has_node(*handle),
    {
        match self.nodes.get(handle) {
            Ok(_) => true,
            Err(_error) => false,
        }
    }
}


impl<T: Payload + 'static> Graph<T, UncheckedBasic<T>, UncheckedSubgraph<T>> {
    /// Adds a node with a processor that a user of the library wrote.
    /// Nothing is specified of such a processor but that its outputs are
    /// valid.
    pub fn add_processor_node(&mut self, processor: Box<dyn BasicProcessor<T>>) -> (handle:
        NodeHandle<T>)
        requires
            old(self).wf(),
        ensures
            final(self).wf(),
            old(self).caches_valid() ==> final(self).caches_valid(),
            parts(handle) == old(self).nodes().next_handle(),
            final(self).nodes() == old(self).nodes().insert(final(self).node(handle)),
            final(self).has_node(handle),
            !old(self).has_node(handle),
            !final(self).node(handle).has_subgraph(),
            final(self).node(handle).inputs() == Seq::<NodeHandle<T>>::empty(),
            final(self).node(handle).outputs() == Seq::<NodeHandle<T>>::empty(),
            final(self).node(handle).cached() is None,
            final(self).subgraphs() == old(self).subgraphs(),
            final(self).output() == old(self).output(),
            final(self).exposed() == old(self).exposed(),
    {
        self.add_checked_processor_node(UncheckedBasic { processor })
    }

    /// Adds a node with a subgraph processor that a user of the library
    /// wrote, and an empty graph for the processor to work with.
    pub fn add_subgraph_processor_node(&mut self, processor: Box<dyn SubgraphProcessor<T>>) -> (handle:
        NodeHandle<T>)
        requires
            old(self).wf(),
        ensures
            final(self).wf(),
            old(self).caches_valid() ==> final(self).caches_valid(),
            parts(handle) == old(self).nodes().next_handle(),
            final(self).nodes() == old(self).nodes().insert(final(self).node(handle)),
            final(self).has_node(handle),
            !old(self).has_node(handle),
            final(self).node(handle).has_subgraph(),
            final(self).node(handle).inputs() == Seq::<NodeHandle<T>>::empty(),
            final(self).node(handle).outputs() == Seq::<NodeHandle<T>>::empty(),
            final(self).node(handle).cached() is None,
            parts(final(self).node(handle).subgraph_handle()) == old(self).subgraphs().next_handle(),
            final(self).subgraphs() == old(self).subgraphs().insert(
                final(self).subgraph(final(self).node(handle).subgraph_handle()),
            ),
            final(self).has_subgraph(final(self).node(handle).subgraph_handle()),
            final(self).subgraph(final(self).node(handle).subgraph_handle()).nodes() == Arena::<
                Node<T, UncheckedBasic<T>, UncheckedSubgraph<T>>,
            >::empty(),
            final(self).subgraph(final(self).node(handle).subgraph_handle()).output() is None,
            final(self).output() == old(self).output(),
            final(self).exposed() == old(self).exposed(),
    {
        self.add_checked_subgraph_processor_node(UncheckedSubgraph { processor })
    }
}

/// What is pushed is there, what was there stays, and nothing else comes.
pub proof fn lemma_push_has<A>(items: Seq<A>, pushed: A)
    ensures
        forall|other: A| #[trigger]
            items.push(pushed).contains(other) <==> items.contains(other) || other == pushed,
{
    assert forall|other: A| #[trigger]
        items.push(pushed).contains(other) <==> items.contains(other) || other == pushed by {
        if items.push(pushed).contains(other) {
            let k = choose|k: int| 0 <= k < items.push(pushed).len() && items.push(pushed)[k] == other;
            if k < items.len() {
                assert(items[k] == other);
            }
        }
        if items.contains(other) {
            let k = choose|k: int| 0 <= k < items.len() && items[k] == other;
            assert(items.push(pushed)[k] == other);
        }
        if other == pushed {
            assert(items.push(pushed)[items.len() as int] == other);
        }
    }
}


/// Holds of everything: it gives a value a name to find it by.
pub open spec fn named<A>(value: A) -> bool {
    true
}

} // verus!
