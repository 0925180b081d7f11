use mcshader_lsp::dfs::{walk, CycleError};
use mcshader_lsp::graph::CachedStableGraph;
use mcshader_lsp::IncludePosition;

fn at(line: usize) -> IncludePosition {
    IncludePosition { line, start: 10, end: 16 }
}

#[test]
fn walk_of_a_single_node() {
    let adj: Vec<Vec<usize>> = vec![vec![]];
    assert_eq!(walk(&adj, 0), (vec![(0, None)], None));
}

#[test]
fn walk_lists_parents_first_and_siblings_in_edge_order() {
    // 0 -> 2, 1; 2 -> 3; 1 -> 4
    let adj: Vec<Vec<usize>> = vec![vec![2, 1], vec![4], vec![3], vec![], vec![]];
    let (visits, cycle) = walk(&adj, 0);
    assert_eq!(cycle, None);
    assert_eq!(
        visits,
        vec![(0, None), (2, Some(0)), (3, Some(2)), (1, Some(0)), (4, Some(1))]
    );
}

#[test]
fn walk_visits_a_shared_file_once_for_each_edge() {
    // a diamond: 0 -> 1, 2; 1 -> 3; 2 -> 3
    let adj: Vec<Vec<usize>> = vec![vec![1, 2], vec![3], vec![3], vec![]];
    let (visits, cycle) = walk(&adj, 0);
    assert_eq!(cycle, None);
    assert_eq!(
        visits,
        vec![(0, None), (1, Some(0)), (3, Some(1)), (2, Some(0)), (3, Some(2))]
    );
}

#[test]
fn walk_follows_parallel_edges() {
    let adj: Vec<Vec<usize>> = vec![vec![1, 1], vec![]];
    assert_eq!(walk(&adj, 0), (vec![(0, None), (1, Some(0)), (1, Some(0))], None));
}

#[test]
fn walk_stops_at_a_cycle() {
    let adj: Vec<Vec<usize>> = vec![vec![1], vec![2], vec![0]];
    let (visits, cycle) = walk(&adj, 0);
    assert_eq!(cycle, Some(CycleError(2, 0)));
    assert_eq!(visits, vec![(0, None), (1, Some(0)), (2, Some(1))]);
}

#[test]
fn walk_stops_at_a_self_edge() {
    let adj: Vec<Vec<usize>> = vec![vec![0]];
    assert_eq!(walk(&adj, 0), (vec![(0, None)], Some(CycleError(0, 0))));
}

#[test]
fn walk_leaves_out_what_follows_the_cycle() {
    // 0 -> 1, 3; 1 -> 2; 2 -> 1
    let adj: Vec<Vec<usize>> = vec![vec![1, 3], vec![2], vec![1], vec![]];
    let (visits, cycle) = walk(&adj, 0);
    assert_eq!(cycle, Some(CycleError(2, 1)));
    assert_eq!(visits, vec![(0, None), (1, Some(0)), (2, Some(1))]);
}

#[test]
fn walk_from_a_node_that_is_none_visits_it_alone() {
    let adj: Vec<Vec<usize>> = vec![vec![]];
    assert_eq!(walk(&adj, 5), (vec![(5, None)], None));
}

#[test]
fn graph_walk_of_an_acyclic_graph() {
    let mut graph = CachedStableGraph::new();
    let a = graph.add_node(b"a.fsh");
    let b = graph.add_node(b"b.glsl");
    let c = graph.add_node(b"c.glsl");
    graph.add_edge(a, c, at(1));
    graph.add_edge(a, b, at(2));
    graph.add_edge(c, b, at(0));
    assert_eq!(
        graph.dfs(a),
        Ok(vec![(a, None), (c, Some(a)), (b, Some(c)), (b, Some(a))])
    );
    assert_eq!(graph.dfs(b), Ok(vec![(b, None)]));
}

#[test]
fn graph_walk_of_a_cyclic_graph_is_an_error() {
    let mut graph = CachedStableGraph::new();
    let a = graph.add_node(b"a.fsh");
    let b = graph.add_node(b"b.glsl");
    graph.add_edge(a, b, at(1));
    graph.add_edge(b, a, at(0));
    assert_eq!(graph.dfs(a), Err(CycleError(b, a)));
    assert_eq!(graph.dfs(b), Err(CycleError(a, b)));
}
