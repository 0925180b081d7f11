use mcshader_lsp::graph::{ancestors_of, CachedStableGraph};
use mcshader_lsp::IncludePosition;

fn at(line: usize) -> IncludePosition {
    IncludePosition { line, start: 10, end: 16 }
}

#[test]
fn new_graph_is_empty() {
    let graph = CachedStableGraph::new();
    assert_eq!(graph.node_count(), 0);
    assert_eq!(graph.find_node(b"/w/shaders/a.fsh"), None);
    assert_eq!(graph.child_node_indexes(0), Vec::<usize>::new());
    assert_eq!(graph.adjacency_lists(), Vec::<Vec<usize>>::new());
}

#[test]
fn add_node_is_idempotent() {
    let mut graph = CachedStableGraph::new();
    let a = graph.add_node(b"/w/shaders/a.fsh");
    let b = graph.add_node(b"/w/shaders/b.glsl");
    assert_eq!(a, 0);
    assert_eq!(b, 1);
    assert_eq!(graph.add_node(b"/w/shaders/a.fsh"), a);
    assert_eq!(graph.node_count(), 2);
    assert_eq!(graph.find_node(b"/w/shaders/b.glsl"), Some(b));
    assert_eq!(graph.find_node(b"/w/shaders/c.glsl"), None);
    assert_eq!(graph.get_node(a), b"/w/shaders/a.fsh".to_vec());
    assert_eq!(graph.get_node(b), b"/w/shaders/b.glsl".to_vec());
}

#[test]
fn every_added_path_is_found_under_its_id() {
    let mut graph = CachedStableGraph::new();
    let paths: Vec<&[u8]> = vec![b"a.fsh", b"b.glsl", b"lib/c.glsl", b"a.fsh", b"d.inc"];
    let mut ids = Vec::new();
    for path in &paths {
        ids.push(graph.add_node(path));
    }
    for (path, id) in paths.iter().zip(ids.iter()) {
        assert_eq!(graph.find_node(path), Some(*id));
        assert_eq!(graph.get_node(*id), path.to_vec());
    }
    assert_eq!(graph.node_count(), 4);
}

#[test]
fn ids_survive_edge_churn() {
    let mut graph = CachedStableGraph::new();
    let a = graph.add_node(b"a.fsh");
    let b = graph.add_node(b"b.glsl");
    graph.add_edge(a, b, at(1));
    let c = graph.add_node(b"c.glsl");
    graph.add_edge(a, c, at(2));
    assert!(graph.remove_edge(a, b));
    graph.add_edge(c, b, at(0));
    assert!(graph.remove_edge(a, c));
    let d = graph.add_node(b"d.glsl");
    assert_eq!(graph.get_node(a), b"a.fsh".to_vec());
    assert_eq!(graph.get_node(b), b"b.glsl".to_vec());
    assert_eq!(graph.get_node(c), b"c.glsl".to_vec());
    assert_eq!(graph.get_node(d), b"d.glsl".to_vec());
    assert_eq!(graph.find_node(b"b.glsl"), Some(b));
    assert_eq!((a, b, c, d), (0, 1, 2, 3));
}

#[test]
fn edges_keep_insertion_order() {
    let mut graph = CachedStableGraph::new();
    let a = graph.add_node(b"a.fsh");
    let b = graph.add_node(b"b.glsl");
    let c = graph.add_node(b"c.glsl");
    graph.add_edge(a, b, at(2));
    graph.add_edge(a, c, at(3));
    graph.add_edge(a, b, at(7));
    assert_eq!(graph.child_node_indexes(a), vec![b, c, b]);
    assert_eq!(
        graph.child_node_meta(a),
        vec![
            (b"b.glsl".to_vec(), at(2)),
            (b"c.glsl".to_vec(), at(3)),
            (b"b.glsl".to_vec(), at(7)),
        ]
    );
    assert_eq!(graph.child_node_indexes(b), Vec::<usize>::new());
    assert_eq!(graph.child_node_indexes(17), Vec::<usize>::new());
}

#[test]
fn edge_meta_is_that_of_the_first_edge() {
    let mut graph = CachedStableGraph::new();
    let a = graph.add_node(b"a.fsh");
    let b = graph.add_node(b"b.glsl");
    let c = graph.add_node(b"c.glsl");
    graph.add_edge(a, b, at(2));
    graph.add_edge(a, b, at(7));
    assert_eq!(graph.get_edge_meta(a, b), Some(at(2)));
    assert_eq!(graph.get_edge_meta(a, c), None);
    assert_eq!(graph.get_edge_meta(b, a), None);
    assert_eq!(graph.get_edge_meta(9, a), None);
}

#[test]
fn remove_edge_takes_parallel_edges_one_by_one() {
    let mut graph = CachedStableGraph::new();
    let a = graph.add_node(b"a.fsh");
    let b = graph.add_node(b"b.glsl");
    let c = graph.add_node(b"c.glsl");
    graph.add_edge(a, b, at(2));
    graph.add_edge(a, c, at(3));
    graph.add_edge(a, b, at(7));
    assert!(graph.remove_edge(a, b));
    assert_eq!(
        graph.child_node_meta(a),
        vec![(b"b.glsl".to_vec(), at(2)), (b"c.glsl".to_vec(), at(3))]
    );
    assert!(graph.remove_edge(a, b));
    assert_eq!(graph.child_node_indexes(a), vec![c]);
    assert!(!graph.remove_edge(a, b));
    assert!(!graph.remove_edge(42, b));
    assert_eq!(graph.child_node_indexes(a), vec![c]);
    assert_eq!(graph.node_count(), 3);
}

#[test]
fn remove_edge_at_takes_the_edge_at_that_place() {
    let mut graph = CachedStableGraph::new();
    let a = graph.add_node(b"a.fsh");
    let b = graph.add_node(b"b.glsl");
    let c = graph.add_node(b"c.glsl");
    let d = graph.add_node(b"d.glsl");
    graph.add_edge(a, b, at(1));
    graph.add_edge(a, c, at(2));
    graph.add_edge(a, d, at(3));
    assert!(graph.remove_edge_at(a, 1));
    assert_eq!(graph.child_node_indexes(a), vec![b, d]);
    assert!(!graph.remove_edge_at(a, 2));
    assert!(!graph.remove_edge_at(b, 0));
    assert!(graph.remove_edge_at(a, 0));
    assert_eq!(graph.child_node_indexes(a), vec![d]);
    graph.add_edge(a, b, at(9));
    assert_eq!(graph.child_node_indexes(a), vec![d, b]);
}

#[test]
fn self_edge_is_kept() {
    let mut graph = CachedStableGraph::new();
    let a = graph.add_node(b"a.glsl");
    graph.add_edge(a, a, at(0));
    assert_eq!(graph.child_node_indexes(a), vec![a]);
    assert_eq!(graph.parent_node_indexes(a), vec![a]);
}

#[test]
fn parents_are_listed_once_by_rising_id() {
    let mut graph = CachedStableGraph::new();
    let a = graph.add_node(b"a.fsh");
    let b = graph.add_node(b"b.vsh");
    let c = graph.add_node(b"c.glsl");
    graph.add_edge(b, c, at(1));
    graph.add_edge(a, c, at(1));
    graph.add_edge(a, c, at(2));
    assert_eq!(graph.parent_node_indexes(c), vec![a, b]);
    assert_eq!(graph.parent_node_indexes(a), Vec::<usize>::new());
}

#[test]
fn adjacency_lists_follow_the_edges() {
    let mut graph = CachedStableGraph::new();
    let a = graph.add_node(b"a.fsh");
    let b = graph.add_node(b"b.glsl");
    let c = graph.add_node(b"c.glsl");
    graph.add_edge(a, c, at(1));
    graph.add_edge(a, b, at(2));
    graph.add_edge(b, c, at(0));
    assert_eq!(graph.adjacency_lists(), vec![vec![c, b], vec![c], vec![]]);
}

#[test]
fn ancestors_are_found_through_other_files() {
    let adj: Vec<Vec<usize>> = vec![vec![1], vec![2], vec![], vec![2], vec![]];
    assert_eq!(ancestors_of(&adj, 2), vec![true, true, false, true, false]);
    assert_eq!(ancestors_of(&adj, 0), vec![false, false, false, false, false]);
    assert_eq!(ancestors_of(&adj, 7), vec![false, false, false, false, false]);
}

#[test]
fn ancestors_on_a_cycle_hold_the_node_itself() {
    let adj: Vec<Vec<usize>> = vec![vec![1], vec![0]];
    assert_eq!(ancestors_of(&adj, 0), vec![true, true]);
}

#[test]
fn root_ancestors_are_the_top_level_shaders() {
    let mut graph = CachedStableGraph::new();
    let fsh = graph.add_node(b"/w/shaders/final.fsh");
    let vsh = graph.add_node(b"/w/shaders/final.vsh");
    let lib = graph.add_node(b"/w/shaders/lib/common.glsl");
    let util = graph.add_node(b"/w/shaders/lib/util.glsl");
    let alone = graph.add_node(b"/w/shaders/alone.glsl");
    graph.add_edge(fsh, lib, at(1));
    graph.add_edge(vsh, lib, at(1));
    graph.add_edge(lib, util, at(0));
    assert_eq!(graph.collect_root_ancestors(util), vec![fsh, vsh]);
    assert_eq!(graph.collect_root_ancestors(lib), vec![fsh, vsh]);
    assert_eq!(graph.collect_root_ancestors(fsh), Vec::<usize>::new());
    assert_eq!(graph.collect_root_ancestors(alone), Vec::<usize>::new());
    assert_eq!(graph.collect_root_ancestors(99), Vec::<usize>::new());
}

#[test]
fn root_ancestors_leave_out_files_of_other_kinds_and_the_node_itself() {
    let mut graph = CachedStableGraph::new();
    let gsh = graph.add_node(b"a.gsh");
    let mid = graph.add_node(b"mid.glsl");
    let csh = graph.add_node(b"b.csh");
    graph.add_edge(gsh, mid, at(0));
    graph.add_edge(mid, csh, at(0));
    graph.add_edge(csh, gsh, at(0));
    assert_eq!(graph.collect_root_ancestors(csh), vec![gsh]);
    assert_eq!(graph.collect_root_ancestors(gsh), vec![csh]);
    assert_eq!(graph.collect_root_ancestors(mid), vec![gsh, csh]);
}
