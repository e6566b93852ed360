use ai_agents::RecursiveStateVisitor;
use ai_agents::graph::DfsAgent;
use ai_agents::graph::EdgeListGraph;
use ai_agents::graph::Graph;
use ai_agents::graph::GraphEnvironment;
use ai_agents::graph::is_tree;

fn diamond() -> EdgeListGraph {
    EdgeListGraph {
        node_count: 3,
        adjacency: vec![vec![(0, 1), (0, 2)], vec![(1, 2)], vec![]],
    }
}

#[test]
fn test_edge_list_graph_accessors() {
    let g = diamond();
    assert_eq!(g.nodes(), vec![0, 1, 2]);
    assert_eq!(g.edges(&0), vec![(0, 1), (0, 2)]);
    assert_eq!(g.edges(&2), vec![]);
    assert_eq!(g.edges(&9), vec![]);
    assert_eq!(EdgeListGraph::edge_begin(&(0, 1)), 0);
    assert_eq!(EdgeListGraph::edge_end(&(0, 1)), 1);
}

#[test]
fn test_is_tree_is_conservative() {
    assert!(!is_tree(diamond()));
}

// The graph environment jumps to an edge's begin node on apply and to its
// end node on rollback; the DFS agent offers the edges leaving the current
// node.
#[test]
fn test_visitor_over_graph_environment() {
    let graph = diamond();
    let shadow = diamond();
    let env = GraphEnvironment { graph };
    let mut visitor = RecursiveStateVisitor::new(0usize, &env, DfsAgent { graph: &shadow });

    // enters the root
    visitor.advance();
    assert_eq!(visitor.get(), Some(&0usize));

    // expands the root: applies the first leaving edge (0, 1), which begins
    // at node 0
    visitor.advance();
    assert_eq!(visitor.get(), Some(&0usize));
    visitor.stop_expand_current();

    // backtracking rolls the edge (0, 1) back to its end node 1, then enters
    // the sibling edge (0, 2), which begins at node 0
    visitor.advance();
    assert_eq!(visitor.get(), Some(&0usize));
    visitor.stop_expand_current();

    // the last sibling is rolled back to its end node and the traversal ends
    visitor.advance();
    assert!(visitor.get().is_none());
}
