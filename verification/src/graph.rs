//! The graphs of the crate `heuristic_graph_coloring`, as far as this
//! library builds and colours them. The contracts of the outside functions in
//! this file are not proved: each says what that crate's source and
//! documentation show.

use heuristic_graph_coloring::color_rlf;
use heuristic_graph_coloring::VecVecGraph;
use vstd::prelude::*;

verus! {

/// `heuristic_graph_coloring::VecVecGraph`: a graph that keeps, for each of
/// its vertices, the list of the neighbours that were given to it.
#[verifier::external_type_specification]
#[verifier::external_body]
pub struct ExVecVecGraph(heuristic_graph_coloring::VecVecGraph);

/// What the graph holds: for each vertex, numbered from 0, the list of its
/// neighbours in the order in which they were given to it.
pub uninterp spec fn graph_neighbors(graph: VecVecGraph) -> Seq<Seq<usize>>;

/// What `heuristic_graph_coloring::color_rlf` returns for the graph with
/// the lists of neighbours `neighbors`: for each vertex the number of its
/// colour. The function works on nothing but these lists, so the same lists
/// always have the same colouring.
pub uninterp spec fn rlf_coloring(neighbors: Seq<Seq<usize>>) -> Seq<usize>;

/// Lists of neighbours for `order` vertices without an edge.
pub open spec fn no_edges(order: nat) -> Seq<Seq<usize>> {
    Seq::new(order, |i: int| Seq::<usize>::empty())
}

/// The lists after an edge between `w` and `v` was added: `v` stands at the
/// end of the list of `w`, and then `w` at the end of the list of `v`.
pub open spec fn with_edge(neighbors: Seq<Seq<usize>>, w: usize, v: usize) -> Seq<Seq<usize>> {
    let first = neighbors.update(w as int, neighbors[w as int].push(v));
    first.update(v as int, first[v as int].push(w))
}

/// The lists are those of a graph without loops and repeated edges: every
/// neighbour is a vertex other than the one whose list it is on and has
/// that one on its own list, and no list holds a vertex twice.
pub open spec fn simple_lists(neighbors: Seq<Seq<usize>>) -> bool {
    &&& forall|i: int, k: int|
        0 <= i < neighbors.len() && 0 <= k < neighbors[i].len() ==> {
            let j = #[trigger] neighbors[i][k];
            j < neighbors.len() && j != i && neighbors[j as int].contains(i as usize)
        }
    &&& forall|i: int| 0 <= i < neighbors.len() ==> (#[trigger] neighbors[i]).no_duplicates()
}

/// A colouring gives every vertex a colour other than those of its
/// neighbours.
pub open spec fn proper_on_lists(neighbors: Seq<Seq<usize>>, coloring: Seq<usize>) -> bool {
    forall|i: int, k: int|
        0 <= i < neighbors.len() && 0 <= k < neighbors[i].len() ==> coloring[i] != coloring[(
        #[trigger] neighbors[i][k]) as int]
}

/// `VecVecGraph::new`: a graph with `num_vertices` vertices, each with an
/// empty list of neighbours.
pub assume_specification[ VecVecGraph::new ](num_vertices: usize) -> (graph: VecVecGraph)
    ensures
        graph_neighbors(graph) == no_edges(num_vertices as nat),
;

/// `VecVecGraph::add_edge`: puts `v` at the end of the list of `w`, then `w`
/// at the end of the list of `v`. It indexes the lists by both, so both must
/// be vertices of the graph.
pub assume_specification[ VecVecGraph::add_edge ](graph: &mut VecVecGraph, w: usize, v: usize)
    requires
        w < graph_neighbors(*old(graph)).len(),
        v < graph_neighbors(*old(graph)).len(),
    ensures
        graph_neighbors(*final(graph)) == with_edge(graph_neighbors(*old(graph)), w, v),
;

/// `heuristic_graph_coloring::color_rlf` on a graph of this library's kind.
///
/// The crate promises of all its algorithms a colouring: one colour for
/// each vertex, such that no edge joins two vertices of one colour. It asks
/// in turn that no edge be added twice and none from a vertex to itself.
#[verifier::external_body]
pub(crate) fn rlf(graph: &VecVecGraph) -> (coloring: Vec<usize>)
    requires
        simple_lists(graph_neighbors(*graph)),
    ensures
        coloring@ == rlf_coloring(graph_neighbors(*graph)),
        coloring@.len() == graph_neighbors(*graph).len(),
        proper_on_lists(graph_neighbors(*graph), coloring@),
{
    color_rlf(graph)
}

} // verus!
