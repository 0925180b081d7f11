//! The include graph: files as nodes, `#include` directives as edges.
//!
//! The nodes and edges live in a `petgraph` stable graph. What that crate does
//! is stated by the contracts of the few functions at the top of this file,
//! which are believed, not proved; everything below them is proved from those
//! contracts.

use crate::includes::include_views;
use crate::paths::tree_type_of;
use crate::text::{bytes_eq, to_vec};
use crate::{IncludePosition, TreeType};
use petgraph::stable_graph::{NodeIndex, StableGraph};
use petgraph::visit::EdgeRef;
use petgraph::Directed;
use vstd::prelude::*;
use vstd::set_lib::{lemma_int_range, set_int_range};

verus! {

/// `petgraph::stable_graph::StableGraph`, which is taken as it is: what a
/// graph holds is named by `graph_slots` and `graph_out`.
#[verifier::external_type_specification]
#[verifier::external_body]
#[verifier::reject_recursive_types(N)]
#[verifier::reject_recursive_types(E)]
#[verifier::reject_recursive_types(Ty)]
#[verifier::reject_recursive_types(Ix)]
pub struct ExStableGraph<N, E, Ty, Ix>(StableGraph<N, E, Ty, Ix>);

/// `petgraph::Directed`, the marker of a graph whose edges have a direction.
#[verifier::external_type_specification]
#[verifier::external_body]
pub struct ExDirected(Directed);

/// The graph that holds the nodes and edges: a node's weight is the file's
/// path, an edge's weight is the line and the two columns of the directive.
pub type IncludeStore = StableGraph<Vec<u8>, (usize, usize, usize), Directed, usize>;

/// The node slots of a graph, by node index: the weight of the node at that
/// index, or `None` where a node was removed and left its slot vacant.
pub uninterp spec fn graph_slots(
    g: StableGraph<Vec<u8>, (usize, usize, usize), Directed, usize>,
) -> Seq<Option<Seq<u8>>>;

/// The outgoing edges of a graph, one list for each node slot: the target and
/// the weight of each edge that leaves the node, the edge added last first
/// (the order in which `StableGraph::edges` walks them).
pub uninterp spec fn graph_out(
    g: StableGraph<Vec<u8>, (usize, usize, usize), Directed, usize>,
) -> Seq<Seq<(usize, (usize, usize, usize))>>;

/// `StableGraph::default` makes a graph that has no node slot and no edge.
#[verifier::external_body]
fn store_new() -> (g: IncludeStore)
    ensures
        graph_slots(g).len() == 0,
        graph_out(g).len() == 0,
{
    StableGraph::default()
}

/// `StableGraph::node_count` gives the number of nodes, that is of the slots
/// which are not vacant.
#[verifier::external_body]
fn store_node_count(g: &IncludeStore) -> (n: usize)
    ensures
        n == graph_slots(*g).filter(|s: Option<Seq<u8>>| s is Some).len(),
{
    g.node_count()
}

/// `StableGraph::node_weight` gives the weight of the node at index `a`, and
/// `None` where the index is past the slots or the slot is vacant.
#[verifier::external_body]
fn store_weight(g: &IncludeStore, a: usize) -> (w: Option<&Vec<u8>>)
    ensures
        match w {
            Some(path) => a < graph_slots(*g).len() && graph_slots(*g)[a as int] == Some(path@),
            None => a >= graph_slots(*g).len() || graph_slots(*g)[a as int] is None,
        },
{
    g.node_weight(NodeIndex::new(a))
}

/// `StableGraph::add_node`, on a graph without a vacant slot, appends a slot
/// that holds `weight`, with no edge, and returns its index. (With a vacant
/// slot it would fill that one; with `usize` indices it does not panic.)
#[verifier::external_body]
fn store_add_node(g: &mut IncludeStore, weight: Vec<u8>) -> (a: usize)
    requires
        forall|i: int| 0 <= i < graph_slots(*old(g)).len() ==> graph_slots(*old(g))[i] is Some,
    ensures
        a == graph_slots(*old(g)).len(),
        graph_slots(*final(g)) == graph_slots(*old(g)).push(Some(weight@)),
        graph_out(*final(g)) == graph_out(*old(g)).push(Seq::empty()),
{
    g.add_node(weight).index()
}

/// `StableGraph::add_edge`, between two nodes of the graph, puts the new edge
/// in front of the edges that leave `a` and changes nothing else. (It panics
/// where `a` or `b` is no node.)
#[verifier::external_body]
fn store_add_edge(g: &mut IncludeStore, a: usize, b: usize, weight: (usize, usize, usize))
    requires
        a < graph_slots(*old(g)).len(),
        b < graph_slots(*old(g)).len(),
        graph_slots(*old(g))[a as int] is Some,
        graph_slots(*old(g))[b as int] is Some,
    ensures
        graph_slots(*final(g)) == graph_slots(*old(g)),
        graph_out(*final(g)) == graph_out(*old(g)).update(
            a as int,
            seq![(b, weight)] + graph_out(*old(g))[a as int],
        ),
{
    g.add_edge(NodeIndex::new(a), NodeIndex::new(b), weight);
}

/// `StableGraph::edges` walks the edges that leave the node at index `a`, the
/// edge added last first, and walks nothing where `a` is no node. Each edge is
/// handed out as its target's index and its weight.
#[verifier::external_body]
fn store_edges(g: &IncludeStore, a: usize) -> (list: Vec<(usize, (usize, usize, usize))>)
    ensures
        list@ == if a < graph_out(*g).len() {
            graph_out(*g)[a as int]
        } else {
            Seq::empty()
        },
{
    g.edges(NodeIndex::new(a)).map(|e| (e.target().index(), *e.weight())).collect()
}

/// `StableGraph::edges` walks the edges that leave the node at index `a`,
/// the edge added last first, and `StableGraph::remove_edge` takes the edge
/// that the walk reaches after `j` others out of the graph and leaves every
/// other edge in its place. The result says whether there was such an edge.
#[verifier::external_body]
fn store_remove_nth(g: &mut IncludeStore, a: usize, j: usize) -> (removed: bool)
    ensures
        graph_slots(*final(g)) == graph_slots(*old(g)),
        removed <==> a < graph_out(*old(g)).len() && j < graph_out(*old(g))[a as int].len(),
        removed ==> graph_out(*final(g)) == graph_out(*old(g)).update(
            a as int,
            graph_out(*old(g))[a as int].remove(j as int),
        ),
        !removed ==> graph_out(*final(g)) == graph_out(*old(g)),
{
    match g.edges(NodeIndex::new(a)).nth(j).map(|e| e.id()) {
        Some(id) => g.remove_edge(id).is_some(),
        None => false,
    }
}

/// The position that an edge's weight stands for.
pub open spec fn position_of(w: (usize, usize, usize)) -> IncludePosition {
    IncludePosition { line: w.0, start: w.1, end: w.2 }
}

/// The edges of one node, oldest first, from the list that the store keeps
/// for it.
pub open spec fn oldest_first(list: Seq<(usize, (usize, usize, usize))>) -> Seq<
    (usize, IncludePosition),
> {
    Seq::new(
        list.len(),
        |k: int| (list[list.len() - 1 - k].0, position_of(list[list.len() - 1 - k].1)),
    )
}

/// Whether `k` is the place of the first edge in `list` that leads to `child`.
pub open spec fn first_include_of(list: Seq<(usize, IncludePosition)>, k: int, child: usize) -> bool {
    &&& 0 <= k < list.len()
    &&& list[k].0 == child
    &&& forall|j: int| 0 <= j < k ==> list[j].0 != child
}

/// Whether `k` is the place of the last edge in `list` that leads to `child`.
pub open spec fn last_include_of(list: Seq<(usize, IncludePosition)>, k: int, child: usize) -> bool {
    &&& 0 <= k < list.len()
    &&& list[k].0 == child
    &&& forall|j: int| k < j < list.len() ==> list[j].0 != child
}

/// The paths `paths`, and behind them `path` where they do not hold it.
pub open spec fn with_path(paths: Seq<Seq<u8>>, path: Seq<u8>) -> Seq<Seq<u8>> {
    if paths.contains(path) {
        paths
    } else {
        paths.push(path)
    }
}

/// The paths `paths`, and behind them those of `more` that they do not hold,
/// each once, in their order.
pub open spec fn with_paths(paths: Seq<Seq<u8>>, more: Seq<Seq<u8>>) -> Seq<Seq<u8>>
    decreases more.len(),
{
    if more.len() == 0 {
        paths
    } else {
        with_path(with_paths(paths, more.drop_last()), more.last())
    }
}

/// The paths of the included files of `list`.
pub open spec fn targets(list: Seq<(Seq<u8>, IncludePosition)>) -> Seq<Seq<u8>> {
    list.map_values(|e: (Seq<u8>, IncludePosition)| e.0)
}

/// Whether the node `a` includes the node `b`, where `adj` lists for each
/// node the nodes that it includes.
pub open spec fn edge_in(adj: Seq<Seq<usize>>, a: usize, b: usize) -> bool {
    a < adj.len() && adj[a as int].contains(b)
}

/// Whether each node of `walk` includes the next one.
pub open spec fn is_walk(adj: Seq<Seq<usize>>, walk: Seq<usize>) -> bool {
    &&& walk.len() >= 1
    &&& forall|i: int|
        0 <= i < walk.len() - 1 ==> edge_in(adj, #[trigger] walk[i], walk[i + 1])
}

/// Whether `ancestor` includes `node`, itself or through other nodes.
pub open spec fn includes(adj: Seq<Seq<usize>>, ancestor: usize, node: usize) -> bool {
    exists|walk: Seq<usize>|
        is_walk(adj, walk) && walk.len() >= 2 && walk.first() == ancestor && walk.last() == node
}

/// The lists that `adj` holds.
pub open spec fn lists_of(adj: Seq<Vec<usize>>) -> Seq<Seq<usize>> {
    Seq::new(adj.len(), |i: int| adj[i]@)
}

/// Whether `reach` is closed: it marks every node that includes `node`, and
/// every node that includes a node which it marks.
pub open spec fn is_closed(adj: Seq<Seq<usize>>, reach: Seq<bool>, node: usize, a: int) -> bool {
    forall|k: int|
        0 <= k < adj[a].len() && (#[trigger] adj[a][k] == node || (adj[a][k] < reach.len()
            && reach[adj[a][k] as int])) ==> reach[a]
}

/// A node that includes a node from which a walk leads on stands at the
/// start of a longer walk.
proof fn lemma_walk_prepend(adj: Seq<Seq<usize>>, a: usize, walk: Seq<usize>)
    requires
        is_walk(adj, walk),
        edge_in(adj, a, walk.first()),
    ensures
        is_walk(adj, seq![a] + walk),
        (seq![a] + walk).first() == a,
        (seq![a] + walk).last() == walk.last(),
{
    let longer = seq![a] + walk;
    assert forall|i: int| 0 <= i < longer.len() - 1 implies edge_in(
        adj,
        #[trigger] longer[i],
        longer[i + 1],
    ) by {
        if i > 0 {
            assert(longer[i] == walk[i - 1]);
            assert(longer[i + 1] == walk[i - 1 + 1]);
        }
    }
}

/// A closed marking marks the start of every walk that ends in `node`.
proof fn lemma_closed_marks(adj: Seq<Seq<usize>>, reach: Seq<bool>, node: usize, walk: Seq<usize>)
    requires
        reach.len() == adj.len(),
        forall|a: int| 0 <= a < adj.len() ==> is_closed(adj, reach, node, a),
        is_walk(adj, walk),
        walk.len() >= 2,
        walk.last() == node,
    ensures
        walk.first() < adj.len(),
        reach[walk.first() as int],
    decreases walk.len(),
{
    let a = walk[0];
    assert(edge_in(adj, a, walk[0int + 1]));
    let k = choose|k: int| 0 <= k < adj[a as int].len() && adj[a as int][k] == walk[1];
    assert(is_closed(adj, reach, node, a as int));
    if walk.len() > 2 {
        let rest = walk.skip(1);
        assert forall|i: int| 0 <= i < rest.len() - 1 implies edge_in(
            adj,
            #[trigger] rest[i],
            rest[i + 1],
        ) by {
            assert(rest[i] == walk[i + 1]);
            assert(rest[i + 1] == walk[i + 1 + 1]);
        }
        lemma_closed_marks(adj, reach, node, rest);
        assert(adj[a as int][k] == rest.first());
    } else {
        assert(adj[a as int][k] == node);
    }
}

/// For each node of `adj`, whether it includes `node`, itself or through
/// other nodes.
pub fn ancestors_of(adj: &Vec<Vec<usize>>, node: usize) -> (reach: Vec<bool>)
    ensures
        reach.len() == adj.len(),
        forall|a: int|
            0 <= a < adj.len() ==> (#[trigger] reach[a] <==> includes(
                lists_of(adj@),
                a as usize,
                node,
            )),
{
    let n = adj.len();
    let ghost g = lists_of(adj@);
    let mut reach: Vec<bool> = Vec::new();
    while reach.len() < n
        invariant
            reach.len() <= n,
            forall|a: int| 0 <= a < reach.len() ==> !reach[a],
        decreases n - reach.len(),
    {
        reach.push(false);
    }
    let ghost mut unmarked: Set<int> = set_int_range(0, n as int);
    proof {
        lemma_int_range(0, n as int);
    }
    loop
        invariant
            n == adj.len(),
            g == lists_of(adj@),
            reach.len() == n,
            unmarked.finite(),
            forall|a: int| unmarked.contains(a) <==> 0 <= a < n && !reach[a],
            forall|a: int| 0 <= a < n && reach[a] ==> includes(g, a as usize, node),
        ensures
            reach.len() == n,
            forall|a: int| 0 <= a < n && reach[a] ==> includes(g, a as usize, node),
            forall|a: int| 0 <= a < n ==> is_closed(g, reach@, node, a),
        decreases unmarked.len(),
    {
        let ghost before = unmarked;
        let mut changed = false;
        let mut a: usize = 0;
        while a < n
            invariant
                n == adj.len(),
                g == lists_of(adj@),
                reach.len() == n,
                a <= n,
                unmarked.finite(),
                forall|b: int| unmarked.contains(b) <==> 0 <= b < n && !reach[b],
                forall|b: int| 0 <= b < n && reach[b] ==> includes(g, b as usize, node),
                changed ==> unmarked.len() < before.len(),
                !changed ==> unmarked == before,
                !changed ==> forall|b: int| 0 <= b < a ==> is_closed(g, reach@, node, b),
            decreases n - a,
        {
            if !reach[a] {
                let kids = &adj[a];
                let mut k: usize = 0;
                let mut hit = false;
                while k < kids.len() && !hit
                    invariant
                        n == adj.len(),
                        reach.len() == n,
                        a < n,
                        kids@ == g[a as int],
                        k <= kids.len(),
                        hit ==> k < kids.len() && (kids[k as int] == node || (kids[k as int] < n
                            && reach[kids[k as int] as int])),
                        forall|j: int|
                            0 <= j < k ==> !(kids[j] == node || (kids[j] < n && reach[kids[j] as int])),
                    decreases kids.len() - k + (if hit { 0int } else { 1int }),
                {
                    let c = kids[k];
                    if c == node || (c < n && reach[c]) {
                        hit = true;
                    } else {
                        k += 1;
                    }
                }
                if hit {
                    proof {
                        let c = kids[k as int];
                        assert(g[a as int][k as int] == c);
                        assert(edge_in(g, a, c));
                        if c == node {
                            let walk = seq![a, node];
                            assert(is_walk(g, walk));
                            assert(walk.first() == a && walk.last() == node);
                        } else {
                            let rest = choose|walk: Seq<usize>|
                                is_walk(g, walk) && walk.len() >= 2 && walk.first() == c
                                    && walk.last() == node;
                            lemma_walk_prepend(g, a, rest);
                        }
                        assert(includes(g, a, node));
                        unmarked = unmarked.remove(a as int);
                    }
                    reach.set(a, true);
                    changed = true;
                }
            }
            a += 1;
        }
        if !changed {
            break;
        }
    }
    proof {
        assert forall|a: int| 0 <= a < adj.len() implies (#[trigger] reach[a] <==> includes(
            g,
            a as usize,
            node,
        )) by {
            if includes(g, a as usize, node) {
                let walk = choose|walk: Seq<usize>|
                    is_walk(g, walk) && walk.len() >= 2 && walk.first() == a as usize
                        && walk.last() == node;
                lemma_closed_marks(g, reach@, node, walk);
            }
        }
    }
    reach
}

/// The include graph of a workspace. A node is a file, known by its path and
/// by the id that it was given when it was added; ids count up from zero and
/// no node is ever removed. An edge is one `#include` directive: it leads from
/// the including file to the included one and carries the directive's
/// position. Two files may be joined by several edges.
pub struct CachedStableGraph {
    graph: IncludeStore,
}

impl CachedStableGraph {
    /// The path of each node, by node id.
    pub closed spec fn paths(&self) -> Seq<Seq<u8>> {
        Seq::new(graph_slots(self.graph).len(), |i: int| graph_slots(self.graph)[i].unwrap())
    }

    /// The edges that leave each node, by node id, in the order in which they
    /// were added: the id of the included node and the directive's position.
    pub closed spec fn edges(&self) -> Seq<Seq<(usize, IncludePosition)>> {
        Seq::new(graph_out(self.graph).len(), |p: int| oldest_first(graph_out(self.graph)[p]))
    }

    /// The nodes that `parent` includes, one for each edge, in the order in
    /// which the edges were added.
    pub open spec fn children(&self, parent: int) -> Seq<usize> {
        if 0 <= parent < self.edges().len() {
            self.edges()[parent].map_values(|e: (usize, IncludePosition)| e.0)
        } else {
            Seq::empty()
        }
    }

    /// The edges that leave `node`; none where `node` is no node.
    pub open spec fn edges_of(&self, node: int) -> Seq<(usize, IncludePosition)> {
        if 0 <= node < self.edges().len() {
            self.edges()[node]
        } else {
            Seq::empty()
        }
    }

    /// The includes of `node`, one for each edge, in the order in which the
    /// edges were added: the path of the included file and the directive's
    /// position.
    pub open spec fn meta(&self, node: int) -> Seq<(Seq<u8>, IncludePosition)> {
        self.edges_of(node).map_values(
            |e: (usize, IncludePosition)| (self.paths()[e.0 as int], e.1),
        )
    }

    /// The position of the first edge from `parent` to `child`, if there is
    /// an edge.
    pub open spec fn first_meta(&self, parent: int, child: usize) -> Option<IncludePosition> {
        if exists|k: int| first_include_of(self.edges_of(parent), k, child) {
            Some(
                self.edges_of(parent)[choose|k: int|
                    first_include_of(self.edges_of(parent), k, child)].1,
            )
        } else {
            None
        }
    }

    /// The id of the node whose path is `path`, if there is one.
    pub open spec fn find(&self, path: Seq<u8>) -> Option<int> {
        if self.paths().contains(path) {
            Some(self.paths().index_of(path))
        } else {
            None
        }
    }

    /// Whether this graph holds every node of `before` under its id.
    pub open spec fn keeps_nodes(&self, before: Self) -> bool {
        &&& before.paths().len() <= self.paths().len()
        &&& forall|id: int|
            0 <= id < before.paths().len() ==> self.paths()[id] == before.paths()[id]
    }

    /// Whether `a` is a top-level shader that includes `node`, itself or
    /// through other files, and is not `node`.
    pub open spec fn is_root_ancestor(&self, a: usize, node: usize) -> bool {
        &&& a != node
        &&& a < self.paths().len()
        &&& includes(self.adjacency(), a, node)
        &&& tree_type_of(self.paths()[a as int]) is Some
    }

    /// The top-level shaders below the id `below` that include `node`, by
    /// rising id, see [`Self::is_root_ancestor`].
    pub open spec fn root_ancestors_below(&self, node: usize, below: int) -> Seq<usize>
        decreases below,
    {
        if below <= 0 {
            Seq::empty()
        } else if self.is_root_ancestor((below - 1) as usize, node) {
            self.root_ancestors_below(node, below - 1).push((below - 1) as usize)
        } else {
            self.root_ancestors_below(node, below - 1)
        }
    }

    /// The top-level shaders that include `node`, by rising id.
    pub open spec fn root_ancestors(&self, node: usize) -> Seq<usize> {
        self.root_ancestors_below(node, self.paths().len() as int)
    }

    /// The path of `node`; the empty path where `node` is no node.
    pub open spec fn path_of(&self, node: usize) -> Seq<u8> {
        if node < self.paths().len() {
            self.paths()[node as int]
        } else {
            Seq::empty()
        }
    }

    /// Whether this graph holds the nodes of `before` under their ids, and
    /// for each node but `node` the edges that it has in `before`; a node
    /// that `before` lacks has no edge, unless it is `node`.
    pub open spec fn extends(&self, before: Self, node: int) -> bool {
        &&& before.paths().len() <= self.paths().len()
        &&& self.paths().take(before.paths().len() as int) == before.paths()
        &&& forall|p: int|
            0 <= p < self.paths().len() && p != node ==> #[trigger] self.edges_of(p)
                == before.edges_of(p)
    }

    /// The nodes that each node includes, by node id.
    pub open spec fn adjacency(&self) -> Seq<Seq<usize>> {
        Seq::new(self.edges().len(), |p: int| self.children(p))
    }

    /// Whether an edge leads from `parent` to `child`.
    pub open spec fn has_edge(&self, parent: int, child: int) -> bool {
        exists|k: int| 0 <= k < self.children(parent).len() && self.children(parent)[k] == child
    }

    /// What holds of the store in every graph: no slot is vacant.
    pub closed spec fn store_wf(&self) -> bool {
        forall|i: int|
            0 <= i < graph_slots(self.graph).len() ==> graph_slots(self.graph)[i] is Some
    }

    /// The invariant of the graph: every node has its list of edges, no two
    /// nodes have the same path, and every edge leads to a node.
    pub open spec fn wf(&self) -> bool {
        &&& self.store_wf()
        &&& self.edges().len() == self.paths().len()
        &&& forall|i: int, j: int|
            0 <= i < j < self.paths().len() ==> self.paths()[i] != self.paths()[j]
        &&& forall|p: int, k: int|
            0 <= p < self.edges().len() && 0 <= k < self.edges()[p].len()
                ==> (#[trigger] self.edges()[p][k]).0 < self.paths().len()
    }

    /// A graph without nodes.
    pub fn new() -> (g: Self)
        ensures
            g.wf(),
            g.paths().len() == 0,
    {
        CachedStableGraph { graph: store_new() }
    }

    /// The number of nodes.
    pub fn node_count(&self) -> (n: usize)
        requires
            self.wf(),
        ensures
            n == self.paths().len(),
    {
        proof {
            lemma_all_live(graph_slots(self.graph));
        }
        store_node_count(&self.graph)
    }

    /// The id of the node whose path is `path`, if there is one.
    pub fn find_node(&self, path: &[u8]) -> (found: Option<usize>)
        requires
            self.wf(),
        ensures
            match found {
                Some(id) => self.find(path@) == Some(id as int),
                None => self.find(path@) is None,
            },
            match found {
                Some(id) => id < self.paths().len() && self.paths()[id as int] == path@,
                None => forall|i: int| 0 <= i < self.paths().len() ==> self.paths()[i] != path@,
            },
    {
        let n = self.node_count();
        let mut i: usize = 0;
        while i < n
            invariant
                self.wf(),
                n == self.paths().len(),
                i <= n,
                forall|j: int| 0 <= j < i ==> self.paths()[j] != path@,
            decreases n - i,
        {
            match store_weight(&self.graph, i) {
                Some(w) => {
                    if bytes_eq(w.as_slice(), path) {
                        assert(self.paths()[i as int] == path@);
                        assert(self.paths().index_of(path@) == i);
                        return Some(i);
                    }
                },
                None => {},
            }
            i += 1;
        }
        None
    }

    /// The path of the node `node`.
    pub fn get_node(&self, node: usize) -> (path: Vec<u8>)
        requires
            self.wf(),
            node < self.paths().len(),
        ensures
            path@ == self.paths()[node as int],
    {
        match store_weight(&self.graph, node) {
            Some(w) => to_vec(w.as_slice()),
            None => Vec::new(),
        }
    }

    /// The id of the node whose path is `path`. Where the graph has no such
    /// node yet, a node without edges is added for it.
    pub fn add_node(&mut self, path: &[u8]) -> (id: usize)
        requires
            old(self).wf(),
        ensures
            final(self).wf(),
            id < final(self).paths().len(),
            final(self).paths()[id as int] == path@,
            final(self).paths() == with_path(old(self).paths(), path@),
            final(self).keeps_nodes(*old(self)),
            old(self).paths().contains(path@) ==> final(self).paths() == old(self).paths()
                && final(self).edges() == old(self).edges(),
            !old(self).paths().contains(path@) ==> final(self).paths() == old(self).paths().push(
                path@,
            ) && final(self).edges() == old(self).edges().push(Seq::empty()),
    {
        match self.find_node(path) {
            Some(id) => id,
            None => {
                let id = store_add_node(&mut self.graph, to_vec(path));
                proof {
                    assert(self.paths() =~= old(self).paths().push(path@));

                    assert(self.edges() =~= old(self).edges().push(Seq::empty())) by {
                        assert(oldest_first(Seq::empty()) =~= Seq::<
                            (usize, IncludePosition),
                        >::empty());
                    }
                    assert(!old(self).paths().contains(path@));
                }
                id
            },
        }
    }

    /// Adds an edge from `parent` to `child`, behind the edges that `parent`
    /// has already.
    pub fn add_edge(&mut self, parent: usize, child: usize, meta: IncludePosition)
        requires
            old(self).wf(),
            parent < old(self).paths().len(),
            child < old(self).paths().len(),
        ensures
            final(self).wf(),
            final(self).paths() == old(self).paths(),
            final(self).keeps_nodes(*old(self)),
            final(self).edges() == old(self).edges().update(
                parent as int,
                old(self).edges()[parent as int].push((child, meta)),
            ),
    {
        let weight = (meta.line, meta.start, meta.end);
        store_add_edge(&mut self.graph, parent, child, weight);
        proof {
            let before = graph_out(old(self).graph);
            let after = graph_out(self.graph);
            assert(self.paths() =~= old(self).paths());
            assert(oldest_first(after[parent as int]) =~= oldest_first(before[parent as int]).push(
                (child, meta),
            ));
            assert(self.edges() =~= old(self).edges().update(
                parent as int,
                old(self).edges()[parent as int].push((child, meta)),
            ));
        }
    }

    /// Removes the edge of `parent` that stands at the place `k` among its
    /// edges. The result says whether there was such an edge.
    pub fn remove_edge_at(&mut self, parent: usize, k: usize) -> (removed: bool)
        requires
            old(self).wf(),
        ensures
            final(self).wf(),
            final(self).paths() == old(self).paths(),
            final(self).keeps_nodes(*old(self)),
            removed <==> parent < old(self).edges().len() && k < old(self).edges()[parent as int].len(),
            removed ==> final(self).edges() == old(self).edges().update(
                parent as int,
                old(self).edges()[parent as int].remove(k as int),
            ),
            !removed ==> final(self).edges() == old(self).edges(),
    {
        let n = store_edges(&self.graph, parent).len();
        if k >= n {
            return false;
        }
        let removed = store_remove_nth(&mut self.graph, parent, n - 1 - k);
        proof {
            let before = graph_out(old(self).graph);
            let list = before[parent as int];
            let listed = old(self).edges()[parent as int];
            assert(self.paths() =~= old(self).paths());
            assert(listed == oldest_first(list));
            assert(oldest_first(list.remove(n - 1 - k)) =~= listed.remove(k as int));
            assert(self.edges() =~= old(self).edges().update(
                parent as int,
                listed.remove(k as int),
            ));
        }
        removed
    }

    /// Removes one edge from `parent` to `child`: of several, the one that
    /// was added last. The result says whether there was such an edge.
    pub fn remove_edge(&mut self, parent: usize, child: usize) -> (removed: bool)
        requires
            old(self).wf(),
        ensures
            final(self).wf(),
            final(self).paths() == old(self).paths(),
            final(self).keeps_nodes(*old(self)),
            removed <==> old(self).has_edge(parent as int, child as int),
            removed ==> exists|k: int|
                last_include_of(old(self).edges()[parent as int], k, child) && final(self).edges()
                    == old(self).edges().update(
                    parent as int,
                    old(self).edges()[parent as int].remove(k),
                ),
            !removed ==> final(self).edges() == old(self).edges(),
    {
        let ids = self.child_node_indexes(parent);
        let mut k: usize = ids.len();
        while k > 0
            invariant
                self.wf(),
                self.paths() == old(self).paths(),
                self.edges() == old(self).edges(),
                ids@ == self.children(parent as int),
                k <= ids.len(),
                forall|j: int| k <= j < ids.len() ==> ids[j] != child,
            decreases k,
        {
            k -= 1;
            if ids[k] == child {
                proof {
                    let list = self.edges()[parent as int];
                    assert(self.children(parent as int)[k as int] == child);
                    assert forall|j: int| k < j < list.len() implies list[j].0 != child by {
                        assert(self.children(parent as int)[j] == list[j].0);
                    }
                    assert(last_include_of(list, k as int, child));
                    assert(old(self).children(parent as int)[k as int] == child);
                    assert(old(self).has_edge(parent as int, child as int));
                    assert(parent < self.edges().len() && k < list.len());
                }
                let removed = self.remove_edge_at(parent, k);
                assert(removed);
                return removed;
            }
        }
        false
    }

    /// The nodes that `node` includes, one for each edge, in the order in
    /// which the edges were added.
    pub fn child_node_indexes(&self, node: usize) -> (ids: Vec<usize>)
        requires
            self.wf(),
        ensures
            ids@ == self.children(node as int),
    {
        let list = store_edges(&self.graph, node);
        let mut ids: Vec<usize> = Vec::new();
        let mut k: usize = list.len();
        while k > 0
            invariant
                self.wf(),
                k <= list.len(),
                list@ == if node < graph_out(self.graph).len() {
                    graph_out(self.graph)[node as int]
                } else {
                    Seq::empty()
                },
                ids.len() == list.len() - k,
                forall|j: int| 0 <= j < ids.len() ==> ids[j] == list[list.len() - 1 - j].0,
            decreases k,
        {
            k -= 1;
            ids.push(list[k].0);
        }
        assert(ids@ =~= self.children(node as int));
        ids
    }

    /// The edges that leave `node`, in the order in which they were added:
    /// the included node and the directive's position.
    pub fn child_edges(&self, node: usize) -> (list: Vec<(usize, IncludePosition)>)
        requires
            self.wf(),
        ensures
            list@ == self.edges_of(node as int),
    {
        let kept = store_edges(&self.graph, node);
        let mut list: Vec<(usize, IncludePosition)> = Vec::new();
        let mut k: usize = kept.len();
        while k > 0
            invariant
                self.wf(),
                k <= kept.len(),
                kept@ == if node < graph_out(self.graph).len() {
                    graph_out(self.graph)[node as int]
                } else {
                    Seq::empty()
                },
                list.len() == kept.len() - k,
                forall|j: int|
                    0 <= j < list.len() ==> list[j] == (
                        kept[kept.len() - 1 - j].0,
                        position_of(kept[kept.len() - 1 - j].1),
                    ),
            decreases k,
        {
            k -= 1;
            let (child, w) = kept[k];
            list.push((child, IncludePosition { line: w.0, start: w.1, end: w.2 }));
        }
        assert(list@ =~= self.edges_of(node as int));
        list
    }

    /// The edges that leave `node`, in the order in which they were added:
    /// the path of the included node and the directive's position.
    pub fn child_node_meta(&self, node: usize) -> (meta: Vec<(Vec<u8>, IncludePosition)>)
        requires
            self.wf(),
        ensures
            include_views(meta@) == self.meta(node as int),
    {
        let list = store_edges(&self.graph, node);
        let mut meta: Vec<(Vec<u8>, IncludePosition)> = Vec::new();
        let mut k: usize = list.len();
        while k > 0
            invariant
                self.wf(),
                k <= list.len(),
                list@ == if node < graph_out(self.graph).len() {
                    graph_out(self.graph)[node as int]
                } else {
                    Seq::empty()
                },
                meta.len() == list.len() - k,
                forall|j: int|
                    0 <= j < meta.len() ==> (#[trigger] meta[j]).0@ == self.paths()[self.edges()[node as int][j].0 as int]
                        && meta[j].1 == self.edges()[node as int][j].1,
            decreases k,
        {
            k -= 1;
            let (child, w) = list[k];
            proof {
                let j = list.len() - 1 - k;
                assert(self.edges()[node as int][j] == (child, position_of(w)));
            }
            let path = self.get_node(child);
            meta.push((path, IncludePosition { line: w.0, start: w.1, end: w.2 }));
        }
        assert(include_views(meta@) =~= self.meta(node as int));
        meta
    }

    /// The position of the first edge from `parent` to `child`, if there is
    /// an edge.
    pub fn get_edge_meta(&self, parent: usize, child: usize) -> (meta: Option<IncludePosition>)
        requires
            self.wf(),
        ensures
            meta == self.first_meta(parent as int, child),
            meta is Some <==> self.has_edge(parent as int, child as int),
    {
        let list = store_edges(&self.graph, parent);
        let mut k: usize = list.len();
        while k > 0
            invariant
                self.wf(),
                k <= list.len(),
                list@ == if parent < graph_out(self.graph).len() {
                    graph_out(self.graph)[parent as int]
                } else {
                    Seq::empty()
                },
                forall|j: int| k <= j < list.len() ==> list[j].0 != child,
            decreases k,
        {
            k -= 1;
            if list[k].0 == child {
                let w = list[k].1;
                proof {
                    let m = list.len() - 1 - k;
                    let listed = self.edges_of(parent as int);
                    assert(first_include_of(listed, m, child));
                    let c = choose|c: int| first_include_of(listed, c, child);
                    assert(c == m);
                    assert(self.children(parent as int)[m] == child);
                }
                return Some(IncludePosition { line: w.0, start: w.1, end: w.2 });
            }
        }
        proof {
            if self.has_edge(parent as int, child as int) {
                let j = choose|j: int|
                    0 <= j < self.children(parent as int).len() && self.children(parent as int)[j]
                        == child;
                assert(list[list.len() - 1 - j].0 == child);
            }
            if exists|k: int| first_include_of(self.edges_of(parent as int), k, child) {
                let j = choose|k: int| first_include_of(self.edges_of(parent as int), k, child);
                assert(list[list.len() - 1 - j].0 == child);
            }
        }
        None
    }
}

impl CachedStableGraph {
    /// The nodes that each node includes, by node id.
    pub fn adjacency_lists(&self) -> (adj: Vec<Vec<usize>>)
        requires
            self.wf(),
        ensures
            lists_of(adj@) == self.adjacency(),
    {
        let n = self.node_count();
        let mut adj: Vec<Vec<usize>> = Vec::new();
        while adj.len() < n
            invariant
                self.wf(),
                n == self.paths().len(),
                adj.len() <= n,
                forall|p: int| 0 <= p < adj.len() ==> (#[trigger] adj[p])@ == self.children(p),
            decreases n - adj.len(),
        {
            let kids = self.child_node_indexes(adj.len());
            adj.push(kids);
        }
        assert(lists_of(adj@) =~= self.adjacency());
        adj
    }

    /// The nodes that include `node`, each once, by rising id.
    pub fn parent_node_indexes(&self, node: usize) -> (parents: Vec<usize>)
        requires
            self.wf(),
        ensures
            forall|i: int, j: int| 0 <= i < j < parents.len() ==> parents[i] < parents[j],
            forall|a: usize| parents@.contains(a) <==> self.has_edge(a as int, node as int),
    {
        let n = self.node_count();
        let mut parents: Vec<usize> = Vec::new();
        let mut a: usize = 0;
        while a < n
            invariant
                self.wf(),
                n == self.paths().len(),
                a <= n,
                forall|i: int| 0 <= i < parents.len() ==> parents[i] < a,
                forall|i: int, j: int| 0 <= i < j < parents.len() ==> parents[i] < parents[j],
                forall|b: usize|
                    parents@.contains(b) <==> b < a && self.has_edge(b as int, node as int),
            decreases n - a,
        {
            if self.get_edge_meta(a, node).is_some() {
                assert(self.has_edge(a as int, node as int));
                let ghost before = parents@;
                parents.push(a);
                assert forall|b: usize| parents@.contains(b) <==> b < a + 1 && self.has_edge(
                    b as int,
                    node as int,
                ) by {
                    if parents@.contains(b) {
                        let i = choose|i: int| 0 <= i < parents.len() && parents[i] == b;
                        if i < before.len() {
                            assert(before.contains(b));
                        }
                    }
                    if b < a && self.has_edge(b as int, node as int) {
                        assert(before.contains(b));
                        let i = choose|i: int| 0 <= i < before.len() && before[i] == b;
                        assert(parents[i] == b);
                    }
                    if b == a {
                        assert(parents[parents.len() - 1] == a);
                    }
                }
            }
            a += 1;
        }
        parents
    }

    /// The top-level shaders that include `node`, themselves or through other
    /// files: each node with the extension of a shader kind from which
    /// include directives lead to `node`. `node` itself is never among them.
    /// Each is listed once, by rising id.
    pub fn collect_root_ancestors(&self, node: usize) -> (roots: Vec<usize>)
        requires
            self.wf(),
        ensures
            roots@ == self.root_ancestors(node),
            forall|i: int, j: int| 0 <= i < j < roots.len() ==> roots[i] < roots[j],
            forall|a: usize| roots@.contains(a) <==> self.is_root_ancestor(a, node),
    {
        let adj = self.adjacency_lists();
        let reach = ancestors_of(&adj, node);
        let n = adj.len();
        assert(lists_of(adj@).len() == n);
        let mut roots: Vec<usize> = Vec::new();
        let mut a: usize = 0;
        while a < n
            invariant
                self.wf(),
                n == self.paths().len(),
                reach.len() == n,
                lists_of(adj@) == self.adjacency(),
                forall|b: int|
                    0 <= b < n ==> (#[trigger] reach[b] <==> includes(
                        self.adjacency(),
                        b as usize,
                        node,
                    )),
                a <= n,
                roots@ == self.root_ancestors_below(node, a as int),
                forall|i: int| 0 <= i < roots.len() ==> roots[i] < a,
                forall|i: int, j: int| 0 <= i < j < roots.len() ==> roots[i] < roots[j],
                forall|b: usize|
                    roots@.contains(b) <==> b < a && b != node && includes(
                        self.adjacency(),
                        b,
                        node,
                    ) && tree_type_of(self.paths()[b as int]) is Some,
            decreases n - a,
        {
            assert(reach[a as int] <==> includes(self.adjacency(), a, node));
            if reach[a] && a != node {
                let path = self.get_node(a);
                if TreeType::of_path(path.as_slice()).is_some() {
                    let ghost before = roots@;
                    roots.push(a);
                    assert forall|b: usize| roots@.contains(b) <==> b < a + 1 && b != node
                        && includes(self.adjacency(), b, node) && tree_type_of(
                        self.paths()[b as int],
                    ) is Some by {
                        if roots@.contains(b) {
                            let i = choose|i: int| 0 <= i < roots.len() && roots[i] == b;
                            if i < before.len() {
                                assert(before.contains(b));
                            }
                        }
                        if b < a && before.contains(b) {
                            let i = choose|i: int| 0 <= i < before.len() && before[i] == b;
                            assert(roots[i] == b);
                        }
                        if b == a {
                            assert(roots[roots.len() - 1] == a);
                        }
                    }
                }
            }
            a += 1;
        }
        roots
    }
}

/// A node keeps its id and its path for good: in a graph that keeps the
/// nodes of an earlier one, as every graph does that was made from it by
/// adding nodes and by adding and removing edges, the node `id` of the
/// earlier graph has the path that it had, and its path is found under `id`.
pub proof fn lemma_ids_are_stable(before: CachedStableGraph, after: CachedStableGraph, id: usize)
    requires
        before.wf(),
        after.wf(),
        after.keeps_nodes(before),
        id < before.paths().len(),
    ensures
        id < after.paths().len(),
        after.paths()[id as int] == before.paths()[id as int],
        after.find(before.paths()[id as int]) == Some(id as int),
{
    let path = before.paths()[id as int];
    assert(after.paths()[id as int] == path);
    assert(after.paths().contains(path));
    assert(after.paths().index_of(path) == id);
}

/// To keep the nodes of a graph that keeps the nodes of another is to keep
/// the nodes of the other.
pub proof fn lemma_keeps_nodes_on(
    last: CachedStableGraph,
    mid: CachedStableGraph,
    first: CachedStableGraph,
)
    requires
        last.keeps_nodes(mid),
        mid.keeps_nodes(first),
    ensures
        last.keeps_nodes(first),
{
}

/// A graph to which a path was added holds the path: the path is found
/// under an id, and the node of that id has the path.
pub proof fn lemma_added_path_is_found(
    before: CachedStableGraph,
    after: CachedStableGraph,
    path: Seq<u8>,
)
    requires
        after.wf(),
        after.paths() == with_path(before.paths(), path),
    ensures
        after.find(path) is Some,
        0 <= after.find(path).unwrap() < after.paths().len(),
        after.paths()[after.find(path).unwrap()] == path,
{
    if !before.paths().contains(path) {
        assert(after.paths()[before.paths().len() as int] == path);
    }
    assert(after.paths().contains(path));
    assert(after.paths()[after.paths().index_of(path)] == path);
}

/// A node keeps its includes where the graph grows by nodes and the node
/// keeps its edges.
pub proof fn lemma_meta_kept(before: CachedStableGraph, after: CachedStableGraph, node: int)
    requires
        before.wf(),
        before.paths().len() <= after.paths().len(),
        after.paths().take(before.paths().len() as int) == before.paths(),
        after.edges_of(node) == before.edges_of(node),
    ensures
        after.meta(node) == before.meta(node),
{
    if 0 <= node < before.edges().len() {
        assert forall|k: int| 0 <= k < before.edges()[node].len() implies after.paths()[before.edges()[node][k].0 as int]
            == before.paths()[before.edges()[node][k].0 as int] by {
            let c = before.edges()[node][k].0 as int;
            assert(after.paths().take(before.paths().len() as int)[c] == after.paths()[c]);
        }
    }
    assert(after.meta(node) =~= before.meta(node));
}

/// Where no slot is vacant, the slots that are not vacant are all of them.
proof fn lemma_all_live(slots: Seq<Option<Seq<u8>>>)
    requires
        forall|i: int| 0 <= i < slots.len() ==> slots[i] is Some,
    ensures
        slots.filter(|s: Option<Seq<u8>>| s is Some) == slots,
    decreases slots.len(),
{
    let live = |s: Option<Seq<u8>>| s is Some;
    reveal(Seq::filter);
    if slots.len() > 0 {
        lemma_all_live(slots.drop_last());
        assert(slots.drop_last().push(slots.last()) =~= slots);
    }
}

} // verus!
