use vstd::prelude::*;
use crate::value::{Graph, Value};
use crate::backward::{topo_order, lemma_topo_order};

verus! {

/// The (operand, parent) pairs of the nodes of `order`, one pair for each
/// operand slot, node after node.
pub open spec fn edges_of(nodes: Seq<Value>, order: Seq<usize>) -> Seq<(usize, usize)>
    decreases order.len(),
{
    if order.len() == 0 {
        Seq::empty()
    } else {
        let n = order.last();
        edges_of(nodes, order.drop_last()) + nodes[n as int].children@.map_values(|c: usize| (c, n))
    }
}

/// Enumerates the nodes reachable from `root`, each once, and every
/// (operand, parent) edge among them; an operand used twice by one parent, or
/// by two parents, gives one edge per use.
pub fn build_graph(g: &Graph, root: usize) -> (r: (Vec<usize>, Vec<(usize, usize)>))
    requires
        g.wf(),
        root < g@.len(),
    ensures
        r.0@ == topo_order(g@, root as int),
        r.1@ == edges_of(g@, topo_order(g@, root as int)),
{
    let ghost nodes = g@;
    let order = g.order(root);
    let len = g.len();
    assert(root < len);
    proof {
        lemma_topo_order(nodes, root as int);
    }
    let mut edges: Vec<(usize, usize)> = Vec::new();
    let mut i: usize = 0;
    while i < order.len()
        invariant
            nodes == g@,
            i <= order@.len(),
            forall|k: int| 0 <= k < order@.len() ==> #[trigger] order@[k] <= root,
            root < nodes.len(),
            edges@ == edges_of(nodes, order@.subrange(0, i as int)),
        decreases order@.len() - i,
    {
        let n = order[i];
        let children = &g.node(n).children;
        let ghost base = edges@;
        let mut m: usize = 0;
        while m < children.len()
            invariant
                *children == nodes[n as int].children,
                m <= children@.len(),
                edges@ == base + children@.subrange(0, m as int).map_values(|c: usize| (c, n)),
            decreases children@.len() - m,
        {
            let c = children[m];
            edges.push((c, n));
            m += 1;
            proof {
                assert(children@.subrange(0, m as int).map_values(|c: usize| (c, n))
                    =~= children@.subrange(0, m - 1).map_values(|c: usize| (c, n)).push((c, n)));
            }
        }
        proof {
            assert(children@.subrange(0, m as int) == children@);
            assert(order@.subrange(0, i + 1).drop_last() == order@.subrange(0, i as int));
            assert(order@.subrange(0, i + 1).last() == n);
        }
        i += 1;
    }
    proof {
        assert(order@.subrange(0, order@.len() as int) == order@);
    }
    (order, edges)
}

/// One end of a diagram edge: a node's value box, or the operator circle
/// drawn in front of it.
#[derive(Debug, Clone, Copy, PartialEq, Eq, Structural)]
pub enum Endpoint {
    Record(usize),
    Operator(usize),
}

/// One statement of the diagram of a graph.
#[derive(Debug, Clone, Copy, PartialEq, Eq, Structural)]
pub enum DotStmt {
    /// The operator circle of a node, labelled with its operation symbol.
    OpNode(usize),
    /// The value box of a node, labelled with its value and gradient.
    ValueNode(usize),
    /// An arrow between two shapes.
    Edge(Endpoint, Endpoint),
}

/// The shapes of node `i`: an operator node gets a circle that feeds its box.
pub open spec fn node_shapes(nodes: Seq<Value>, i: usize) -> Seq<DotStmt> {
    if nodes[i as int].operation is Some {
        seq![DotStmt::OpNode(i), DotStmt::Edge(Endpoint::Operator(i), Endpoint::Record(i)), DotStmt::ValueNode(i)]
    } else {
        seq![DotStmt::ValueNode(i)]
    }
}

/// The shapes of every node of `order`, node after node.
pub open spec fn shapes_of(nodes: Seq<Value>, order: Seq<usize>) -> Seq<DotStmt>
    decreases order.len(),
{
    if order.len() == 0 {
        Seq::empty()
    } else {
        shapes_of(nodes, order.drop_last()) + node_shapes(nodes, order.last())
    }
}

/// The arrow of edge `e`: from the operand's box into the parent's operator
/// circle, or into its box when the parent has no operation.
pub open spec fn edge_arrow(nodes: Seq<Value>, e: (usize, usize)) -> DotStmt {
    if nodes[e.1 as int].operation is Some {
        DotStmt::Edge(Endpoint::Record(e.0), Endpoint::Operator(e.1))
    } else {
        DotStmt::Edge(Endpoint::Record(e.0), Endpoint::Record(e.1))
    }
}

/// Appends the shapes of node `n`.
fn push_shapes(g: &Graph, n: usize, stmts: &mut Vec<DotStmt>)
    requires
        n < g@.len(),
    ensures
        final(stmts)@ == old(stmts)@ + node_shapes(g@, n),
{
    if g.node(n).operation.is_some() {
        stmts.push(DotStmt::OpNode(n));
        stmts.push(DotStmt::Edge(Endpoint::Operator(n), Endpoint::Record(n)));
        stmts.push(DotStmt::ValueNode(n));
    } else {
        stmts.push(DotStmt::ValueNode(n));
    }
    assert(stmts@ =~= old(stmts)@ + node_shapes(g@, n));
}

/// Lays out the diagram of the given nodes and edges: the shapes of each node
/// in turn, then one arrow per edge.
pub fn build_dot(g: &Graph, nodes: &Vec<usize>, edges: &Vec<(usize, usize)>) -> (r: Vec<DotStmt>)
    requires
        forall|k: int| 0 <= k < nodes@.len() ==> #[trigger] nodes@[k] < g@.len(),
        forall|k: int| 0 <= k < edges@.len() ==> #[trigger] edges@[k].1 < g@.len(),
    ensures
        r@ == shapes_of(g@, nodes@) + edges@.map_values(|e: (usize, usize)| edge_arrow(g@, e)),
{
    let mut stmts: Vec<DotStmt> = Vec::new();
    let mut i: usize = 0;
    while i < nodes.len()
        invariant
            i <= nodes@.len(),
            forall|k: int| 0 <= k < nodes@.len() ==> #[trigger] nodes@[k] < g@.len(),
            stmts@ == shapes_of(g@, nodes@.subrange(0, i as int)),
        decreases nodes@.len() - i,
    {
        let n = nodes[i];
        let ghost base = stmts@;
        push_shapes(g, n, &mut stmts);
        proof {
            assert(stmts@ == base + node_shapes(g@, n));
            assert(nodes@.subrange(0, i + 1).drop_last() == nodes@.subrange(0, i as int));
            assert(nodes@.subrange(0, i + 1).last() == n);
        }
        i += 1;
    }
    proof {
        assert(nodes@.subrange(0, nodes@.len() as int) == nodes@);
    }
    let ghost shapes = stmts@;
    let mut j: usize = 0;
    while j < edges.len()
        invariant
            j <= edges@.len(),
            forall|k: int| 0 <= k < edges@.len() ==> #[trigger] edges@[k].1 < g@.len(),
            stmts@ == shapes + edges@.subrange(0, j as int).map_values(|e: (usize, usize)| edge_arrow(g@, e)),
        decreases edges@.len() - j,
    {
        let (src, dst) = edges[j];
        let arrow = if g.node(dst).operation.is_some() {
            DotStmt::Edge(Endpoint::Record(src), Endpoint::Operator(dst))
        } else {
            DotStmt::Edge(Endpoint::Record(src), Endpoint::Record(dst))
        };
        stmts.push(arrow);
        j += 1;
        proof {
            assert(edges@.subrange(0, j as int).map_values(|e: (usize, usize)| edge_arrow(g@, e))
                =~= edges@.subrange(0, j - 1).map_values(|e: (usize, usize)| edge_arrow(g@, e)).push(arrow));
        }
    }
    proof {
        assert(edges@.subrange(0, edges@.len() as int) == edges@);
    }
    stmts
}

} // verus!
