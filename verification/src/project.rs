//! # Project
//!
//! A project holds a graph and remembers where in it the work goes on. Every
//! node with a subgraph processor has a graph of its own, and so the graphs
//! of a project form a tree; the path from the root graph to the graph that
//! is worked on is a list of subgraph handles.

use crate::graph::nodes::SubgraphHandle;
use crate::graph::processor_component::{
    CheckedBasicProcessor, CheckedSubgraphProcessor, Payload,
};
use crate::graph::Graph;
use crate::hardeen_error::HardeenError;
use vstd::prelude::*;

verus! {

/// The graph that a path leads to from a graph, if each handle on the path
/// finds a subgraph of the graph before it.
pub open spec fn resolve<T: Payload, P: CheckedBasicProcessor<T>, S: CheckedSubgraphProcessor<T>>(
    graph: Graph<T, P, S>,
    path: Seq<SubgraphHandle<T>>,
    from: int,
) -> Option<Graph<T, P, S>>
    decreases path.len() - from,
{
    if from >= path.len() {
        Some(graph)
    } else if from < 0 || !graph.has_subgraph(path[from]) {
        None
    } else {
        resolve(graph.subgraph(path[from]), path, from + 1)
    }
}

/// Goes down a path from a graph, to work on the graph that it leads to.
fn descend<'a, T: Payload, P: CheckedBasicProcessor<T>, S: CheckedSubgraphProcessor<T>>(
    graph: &'a mut Graph<T, P, S>,
    path: &Vec<SubgraphHandle<T>>,
    from: usize,
) -> (result: Result<&'a mut Graph<T, P, S>, HardeenError>)
    requires
        old(graph).wf(),
        from <= path@.len(),
    ensures
        resolve(*old(graph), path@, from as int) is None ==> result == Err::<&mut Graph<T, P, S>, _>(
            HardeenError::InvalidHandle,
        ) && *final(graph) == *old(graph),
        resolve(*old(graph), path@, from as int) is Some ==> {
            &&& result is Ok
            &&& *result->Ok_0 == resolve(*old(graph), path@, from as int)->0
            &&& result->Ok_0.wf()
            &&& final(result->Ok_0).wf() ==> final(graph).wf()
        },
    decreases path@.len() - from,
{
    if from >= path.len() {
        return Ok(graph);
    }
    if !leads_on(graph, path, from) {
        return Err(HardeenError::InvalidHandle);
    }
    match graph.get_subgraph_mut(&path[from]) {
        Ok(subgraph) => descend(subgraph, path, from + 1),
        Err(error) => Err(error),
    }
}

/// Whether the rest of a path leads to a graph.
fn leads_on<T: Payload, P: CheckedBasicProcessor<T>, S: CheckedSubgraphProcessor<T>>(
    graph: &Graph<T, P, S>,
    path: &Vec<SubgraphHandle<T>>,
    from: usize,
) -> (leads:
    bool)
    requires
        graph.wf(),
        from <= path@.len(),
    ensures
        leads == resolve(*graph, path@, from as int) is Some,
    decreases path@.len() - from,
{
    if from >= path.len() {
        return true;
    }
    match graph.get_subgraph(&path[from]) {
        Ok(subgraph) => leads_on(subgraph, path, from + 1),
        Err(_) => false,
    }
}

#[verifier::reject_recursive_types(T)]
#[verifier::reject_recursive_types(P)]
#[verifier::reject_recursive_types(S)]
pub struct HardeenProject<T: Payload, P: CheckedBasicProcessor<T>, S: CheckedSubgraphProcessor<T>> {
    root_graph: Graph<T, P, S>,
    current_path: Vec<SubgraphHandle<T>>,
}

impl<T: Payload, P: CheckedBasicProcessor<T>, S: CheckedSubgraphProcessor<T>> HardeenProject<T, P, S> {
    /// The graph at the root.
    pub closed spec fn root(&self) -> Graph<T, P, S> {
        self.root_graph
    }

    /// The path from the root graph to the graph that is worked on.
    pub closed spec fn path(&self) -> Seq<SubgraphHandle<T>> {
        self.current_path@
    }

    /// The graph that is worked on, where the path leads to one.
    pub open spec fn current(&self) -> Option<Graph<T, P, S>> {
        resolve(self.root(), self.path(), 0)
    }

    pub open spec fn wf(&self) -> bool {
        self.root().wf()
    }

    pub fn new() -> (project: Self)
        ensures
            project.wf(),
            project.path() == Seq::<SubgraphHandle<T>>::empty(),
            project.current() == Some(project.root()),
            project.root().caches_valid(),
    {
        HardeenProject { root_graph: Graph::new(), current_path: Vec::new() }
    }

    /// The graph that is worked on. The project stays in order as long as
    /// that graph does.
    pub fn get_current_graph_mut(&mut self) -> (result: Result<&mut Graph<T, P, S>, HardeenError>)
        requires
            old(self).wf(),
        ensures
            old(self).current() is None ==> result == Err::<&mut Graph<T, P, S>, _>(
                HardeenError::InvalidHandle,
            ) && *final(self) == *old(self),
            old(self).current() is Some ==> {
                &&& result is Ok
                &&& *result->Ok_0 == old(self).current()->0
                &&& result->Ok_0.wf()
                &&& final(self).path() == old(self).path()
                &&& final(result->Ok_0).wf() ==> final(self).wf()
            },
    {
        descend(&mut self.root_graph, &self.current_path, 0)
    }

    /// Goes back to the graph that holds the graph that is worked on;
    /// nothing happens at the root.
    pub fn go_level_up(&mut self)
        ensures
            final(self).root() == old(self).root(),
            final(self).path() == if old(self).path().len() > 0 {
                old(self).path().drop_last()
            } else {
                old(self).path()
            },
    {
        if self.current_path.len() > 0 {
            self.current_path.pop();
        }
    }

    /// Goes into a subgraph of the graph that is worked on.
    pub fn go_level_down(&mut self, subgraph_handle: SubgraphHandle<T>)
        ensures
            final(self).root() == old(self).root(),
            final(self).path() == old(self).path().push(subgraph_handle),
    {
        self.current_path.push(subgraph_handle);
    }
}

} // verus!
