//! The depth-first walk over the files that a shader includes.
//!
//! The walk lists a file before the files that it includes, and those in the
//! order of their edges. A file that is included twice is listed twice, with
//! all that it includes. The walk keeps the files that it is inside of on a
//! stack, and stops with a `CycleError` when an edge leads back to one of them.

use crate::graph::{edge_in, is_walk, lists_of, CachedStableGraph};
use vstd::prelude::*;

verus! {

/// An edge that closes a cycle: it leads from the node `0` to the node `1`,
/// and `1` includes `0`, itself or through other nodes.
#[derive(Clone, Copy, Debug, PartialEq, Eq, Hash, Structural)]
pub struct CycleError(pub usize, pub usize);

/// One step of a walk: the node, and the node that the walk came from. The
/// root of a walk came from no node.
pub type Visit = (usize, Option<usize>);

/// The walk from `node`, which was reached from `parent` while the walk was
/// inside the nodes of `stack`: the visits made, and the edge at which the
/// walk stopped, if it met a cycle.
pub open spec fn visit(
    adj: Seq<Seq<usize>>,
    node: usize,
    parent: Option<usize>,
    stack: Seq<usize>,
) -> (Seq<Visit>, Option<CycleError>)
    decreases adj.len() - stack.len(), 0nat,
{
    if stack.contains(node) {
        (
            Seq::empty(),
            Some(
                CycleError(
                    match parent {
                        Some(p) => p,
                        None => node,
                    },
                    node,
                ),
            ),
        )
    } else if node >= adj.len() || stack.len() >= adj.len() {
        (seq![(node, parent)], None)
    } else {
        let below = visit_all(adj, adj[node as int], node, stack.push(node));
        (seq![(node, parent)] + below.0, below.1)
    }
}

/// The walks from the nodes `kids`, one after the other, each reached from
/// `parent`; nothing follows the walk that met a cycle.
pub open spec fn visit_all(
    adj: Seq<Seq<usize>>,
    kids: Seq<usize>,
    parent: usize,
    stack: Seq<usize>,
) -> (Seq<Visit>, Option<CycleError>)
    decreases adj.len() - stack.len(), kids.len() + 1,
{
    if kids.len() == 0 {
        (Seq::empty(), None)
    } else {
        let first = visit(adj, kids[0], Some(parent), stack);
        if first.1 is Some {
            first
        } else {
            let rest = visit_all(adj, kids.skip(1), parent, stack);
            (first.0 + rest.0, rest.1)
        }
    }
}

/// The walk from `root` over the nodes that it includes.
pub open spec fn dfs(adj: Seq<Seq<usize>>, root: usize) -> (Seq<Visit>, Option<CycleError>) {
    visit(adj, root, None, Seq::empty())
}

/// Whether `marks` says of each node whether it is on `stack`.
spec fn marks_stack(marks: Seq<bool>, stack: Seq<usize>) -> bool {
    &&& forall|i: int| 0 <= i < stack.len() ==> stack[i] < marks.len()
    &&& forall|a: int| 0 <= a < marks.len() ==> (marks[a] <==> stack.contains(a as usize))
}

fn walk_from(
    adj: &Vec<Vec<usize>>,
    node: usize,
    parent: Option<usize>,
    stack: &mut Vec<usize>,
    marks: &mut Vec<bool>,
    visits: &mut Vec<Visit>,
) -> (cycle: Option<CycleError>)
    requires
        old(marks).len() == adj.len(),
        marks_stack(old(marks)@, old(stack)@),
    ensures
        final(visits)@ == old(visits)@ + visit(lists_of(adj@), node, parent, old(stack)@).0,
        cycle == visit(lists_of(adj@), node, parent, old(stack)@).1,
        cycle is None ==> final(stack)@ == old(stack)@ && final(marks)@ == old(marks)@,
    decreases adj.len() - old(stack).len(), 0nat,
{
    let ghost g = lists_of(adj@);
    let n = adj.len();
    if node < n && marks[node] {
        let from = match parent {
            Some(p) => p,
            None => node,
        };
        assert(visits@ + Seq::<Visit>::empty() =~= visits@);
        return Some(CycleError(from, node));
    }
    assert(!stack@.contains(node)) by {
        if stack@.contains(node) {
            let i = choose|i: int| 0 <= i < stack.len() && stack[i] == node;
        }
    }
    visits.push((node, parent));
    if node >= n || stack.len() >= n {
        assert(visits@ =~= old(visits)@ + seq![(node, parent)]);
        return None;
    }
    stack.push(node);
    marks.set(node, true);
    let ghost inner = stack@;
    let ghost inner_marks = marks@;
    assert(marks_stack(marks@, stack@)) by {
        assert forall|a: int| 0 <= a < marks.len() implies (marks[a] <==> stack@.contains(
            a as usize,
        )) by {
            if a == node {
                assert(stack[stack.len() - 1] == node);
            } else if old(stack)@.contains(a as usize) {
                let i = choose|i: int| 0 <= i < old(stack).len() && old(stack)[i] == a as usize;
                assert(stack[i] == a as usize);
            } else if stack@.contains(a as usize) {
                let i = choose|i: int| 0 <= i < stack.len() && stack[i] == a as usize;
                assert(old(stack)[i] == a as usize);
            }
        }
    }
    let kids = &adj[node];
    let ghost all = visit_all(g, kids@, node, inner);
    let ghost mut done: Seq<Visit> = Seq::empty();
    let mut k: usize = 0;
    assert(kids@.skip(0) =~= kids@);
    while k < kids.len()
        invariant
            g == lists_of(adj@),
            n == adj.len(),
            marks.len() == n,
            stack@ == inner,
            marks@ == inner_marks,
            inner == old(stack)@.push(node),
            old(stack).len() < n,
            node < n,
            g.len() == n,
            kids@ == g[node as int],
            !old(stack)@.contains(node),
            marks_stack(marks@, stack@),
            k <= kids.len(),
            all == visit_all(g, kids@, node, inner),
            visits@ == old(visits)@ + seq![(node, parent)] + done,
            all.0 == done + visit_all(g, kids@.skip(k as int), node, inner).0,
            all.1 == visit_all(g, kids@.skip(k as int), node, inner).1,
        decreases kids.len() - k,
    {
        let ghost rest = kids@.skip(k as int);
        let ghost first = visit(g, kids[k as int], Some(node), inner);
        assert(rest[0] == kids[k as int]);
        assert(rest.skip(1) =~= kids@.skip(k + 1));
        let cycle = walk_from(adj, kids[k], Some(node), stack, marks, visits);
        if cycle.is_some() {
            assert(all.0 =~= done + first.0);
            assert(visits@ =~= old(visits)@ + (seq![(node, parent)] + all.0));
            return cycle;
        }
        proof {
            assert(all.0 =~= done + first.0 + visit_all(g, kids@.skip(k + 1), node, inner).0);
            done = done + first.0;
        }
        k += 1;
    }
    assert(kids@.skip(k as int).len() == 0);
    assert(visits@ =~= old(visits)@ + (seq![(node, parent)] + all.0));
    stack.pop();
    marks.set(node, false);
    assert(stack@ =~= old(stack)@);
    assert(marks@ =~= old(marks)@);
    None
}

/// The walk from `root` over the nodes that it includes, where `adj` lists
/// for each node the nodes that it includes: the visits made, and the edge
/// at which the walk stopped, if it met a cycle.
pub fn walk(adj: &Vec<Vec<usize>>, root: usize) -> (found: (Vec<Visit>, Option<CycleError>))
    ensures
        found.0@ == dfs(lists_of(adj@), root).0,
        found.1 == dfs(lists_of(adj@), root).1,
{
    let n = adj.len();
    let mut marks: Vec<bool> = Vec::new();
    while marks.len() < n
        invariant
            marks.len() <= n,
            forall|a: int| 0 <= a < marks.len() ==> !marks[a],
        decreases n - marks.len(),
    {
        marks.push(false);
    }
    let mut stack: Vec<usize> = Vec::new();
    let mut visits: Vec<Visit> = Vec::new();
    let cycle = walk_from(adj, root, None, &mut stack, &mut marks, &mut visits);
    assert(visits@ =~= dfs(lists_of(adj@), root).0);
    (visits, cycle)
}

impl CachedStableGraph {
    /// The walk from `root` over the files that it includes: each visit as
    /// the node and the node that the walk came from, or the edge that
    /// closes a cycle.
    pub fn dfs(&self, root: usize) -> (found: Result<Vec<Visit>, CycleError>)
        requires
            self.wf(),
        ensures
            match found {
                Ok(visits) => dfs(self.adjacency(), root) == (visits@, None::<CycleError>),
                Err(cycle) => dfs(self.adjacency(), root).1 == Some(cycle),
            },
    {
        let adj = self.adjacency_lists();
        let (visits, cycle) = walk(&adj, root);
        match cycle {
            Some(cycle) => Err(cycle),
            None => Ok(visits),
        }
    }
}

/// Whether every edge of `adj` leads to a node of `adj`.
pub open spec fn is_closed_graph(adj: Seq<Seq<usize>>) -> bool {
    forall|a: int, k: int|
        0 <= a < adj.len() && 0 <= k < adj[a].len() ==> (#[trigger] adj[a][k]) < adj.len()
}

/// Every edge of an include graph leads to a node of the graph.
pub proof fn lemma_adjacency_is_closed(graph: CachedStableGraph)
    requires
        graph.wf(),
    ensures
        is_closed_graph(graph.adjacency()),
        graph.adjacency().len() == graph.paths().len(),
{
    let adj = graph.adjacency();
    assert forall|a: int, k: int| 0 <= a < adj.len() && 0 <= k < adj[a].len() implies (
    #[trigger] adj[a][k]) < adj.len() by {
        assert(adj[a][k] == graph.edges()[a][k].0);
    }
}

/// Whether `stack`, with `node` on top, is the way that a walk came: each
/// of its nodes includes the next one, and the walk came to `node` from the
/// last of them.
pub open spec fn is_way(
    adj: Seq<Seq<usize>>,
    stack: Seq<usize>,
    node: usize,
    parent: Option<usize>,
) -> bool {
    &&& is_walk(adj, stack.push(node))
    &&& stack.len() > 0 ==> parent == Some(stack.last())
}

/// The nodes that `entries` visit from `parent`, in their order.
pub open spec fn children_seen(entries: Seq<Visit>, parent: usize) -> Seq<usize>
    decreases entries.len(),
{
    if entries.len() == 0 {
        Seq::empty()
    } else if entries.last().1 == Some(parent) {
        children_seen(entries.drop_last(), parent).push(entries.last().0)
    } else {
        children_seen(entries.drop_last(), parent)
    }
}

/// Distinct numbers below `n` are `n` at most.
proof fn lemma_pigeonhole(s: Seq<usize>, n: nat)
    requires
        s.no_duplicates(),
        forall|i: int| 0 <= i < s.len() ==> s[i] < n,
    ensures
        s.len() <= n,
    decreases n,
{
    if n == 0 {
        if s.len() > 0 {
            assert(s[0] < n);
        }
    } else if exists|i: int| 0 <= i < s.len() && s[i] == n - 1 {
        let i = choose|i: int| 0 <= i < s.len() && s[i] == n - 1;
        let rest = s.remove(i);
        assert forall|j: int| 0 <= j < rest.len() implies rest[j] < n - 1 by {
            if j < i {
                assert(rest[j] == s[j]);
            } else {
                assert(rest[j] == s[j + 1]);
            }
        }
        assert forall|a: int, b: int| 0 <= a < b < rest.len() implies rest[a] != rest[b] by {
            let x = if a < i {
                a
            } else {
                a + 1
            };
            let y = if b < i {
                b
            } else {
                b + 1
            };
            assert(rest[a] == s[x] && rest[b] == s[y]);
        }
        lemma_pigeonhole(rest, (n - 1) as nat);
    } else {
        lemma_pigeonhole(s, (n - 1) as nat);
    }
}

/// Where the walks from some nodes meet no cycle, the walk from each of
/// them meets none, and the visits are those of the walks, one after the
/// other.
proof fn lemma_visit_all_none(
    adj: Seq<Seq<usize>>,
    kids: Seq<usize>,
    parent: usize,
    stack: Seq<usize>,
    k: int,
)
    requires
        visit_all(adj, kids, parent, stack).1 is None,
        0 <= k < kids.len(),
    ensures
        visit(adj, kids[k], Some(parent), stack).1 is None,
    decreases kids.len(),
{
    if k > 0 {
        lemma_visit_all_none(adj, kids.skip(1), parent, stack, k - 1);
    }
}

/// Where the walks from some nodes meet a cycle, the walk from one of them
/// meets it.
proof fn lemma_visit_all_some(
    adj: Seq<Seq<usize>>,
    kids: Seq<usize>,
    parent: usize,
    stack: Seq<usize>,
) -> (k: int)
    requires
        visit_all(adj, kids, parent, stack).1 is Some,
    ensures
        0 <= k < kids.len(),
        visit(adj, kids[k], Some(parent), stack).1 == visit_all(adj, kids, parent, stack).1,
    decreases kids.len(),
{
    if visit(adj, kids[0], Some(parent), stack).1 is Some {
        0
    } else {
        let k = lemma_visit_all_some(adj, kids.skip(1), parent, stack);
        k + 1
    }
}

/// Where the walk from a node meets no cycle, no walk along edges from
/// that node comes back to a node of itself or to a node of the stack.
proof fn lemma_no_cycle_is_simple(
    adj: Seq<Seq<usize>>,
    node: usize,
    parent: Option<usize>,
    stack: Seq<usize>,
    w: Seq<usize>,
)
    requires
        is_closed_graph(adj),
        node < adj.len(),
        stack.no_duplicates(),
        forall|i: int| 0 <= i < stack.len() ==> stack[i] < adj.len(),
        visit(adj, node, parent, stack).1 is None,
        is_walk(adj, w),
        w[0] == node,
    ensures
        w.no_duplicates(),
        forall|i: int| 0 <= i < w.len() ==> !stack.contains(w[i]),
    decreases w.len(),
{
    let inner = stack.push(node);
    assert(!stack.contains(node));
    assert(inner.no_duplicates()) by {
        assert forall|a: int, b: int| 0 <= a < b < inner.len() implies inner[a] != inner[b] by {
            if b == stack.len() {
                assert(inner[a] == stack[a]);
                if stack[a] == node {
                    assert(stack.contains(node));
                }
            }
        }
    }
    lemma_pigeonhole(inner, adj.len());
    if w.len() > 1 {
        let rest = w.skip(1);
        assert(edge_in(adj, w[0], w[0int + 1]));
        let k = choose|k: int| 0 <= k < adj[node as int].len() && adj[node as int][k] == w[1];
        lemma_visit_all_none(adj, adj[node as int], node, inner, k);
        assert forall|i: int| 0 <= i < rest.len() - 1 implies edge_in(
            adj,
            #[trigger] rest[i],
            rest[i + 1],
        ) by {
            assert(rest[i] == w[i + 1]);
            assert(rest[i + 1] == w[i + 1 + 1]);
        }
        lemma_no_cycle_is_simple(adj, w[1], Some(node), inner, rest);
        assert forall|i: int| 0 <= i < w.len() implies !stack.contains(w[i]) by {
            if i > 0 {
                assert(rest[i - 1] == w[i]);
                if stack.contains(w[i]) {
                    let at = choose|at: int| 0 <= at < stack.len() && stack[at] == w[i];
                    assert(inner[at] == w[i]);
                }
            }
        }
        assert forall|a: int, b: int| 0 <= a < b < w.len() implies w[a] != w[b] by {
            assert(rest[b - 1] == w[b]);
            if a == 0 {
                assert(inner[stack.len() as int] == node);
                assert(!inner.contains(rest[b - 1]));
            } else {
                assert(rest[a - 1] == w[a]);
            }
        }
    }
}

/// Where the walk from a node meets a cycle, the edge that is reported is
/// one, and a walk along edges from the bottom of the stack comes back to a
/// node of itself.
proof fn lemma_cycle_is_real(
    adj: Seq<Seq<usize>>,
    node: usize,
    parent: Option<usize>,
    stack: Seq<usize>,
) -> (w: Seq<usize>)
    requires
        is_way(adj, stack, node, parent),
        visit(adj, node, parent, stack).1 is Some,
    ensures
        is_walk(adj, w),
        w[0] == stack.push(node)[0],
        !w.no_duplicates(),
        w.len() >= 2,
        visit(adj, node, parent, stack).1 == Some(CycleError(w[w.len() - 2], w.last())),
        edge_in(adj, w[w.len() - 2], w.last()),
    decreases adj.len() - stack.len(),
{
    let inner = stack.push(node);
    if stack.contains(node) {
        let at = choose|at: int| 0 <= at < stack.len() && stack[at] == node;
        assert(inner[at] == inner[stack.len() as int]);
        assert(edge_in(adj, inner[stack.len() - 1], inner[stack.len() - 1 + 1]));
        inner
    } else {
        let kids = adj[node as int];
        let k = lemma_visit_all_some(adj, kids, node, inner);
        assert(edge_in(adj, node, kids[k]));
        assert forall|i: int| 0 <= i < inner.push(kids[k]).len() - 1 implies edge_in(
            adj,
            #[trigger] inner.push(kids[k])[i],
            inner.push(kids[k])[i + 1],
        ) by {
            if i < stack.len() {
                assert(inner.push(kids[k])[i] == inner[i]);
                assert(inner.push(kids[k])[i + 1] == inner[i + 1]);
            }
        }
        let w = lemma_cycle_is_real(adj, kids[k], Some(node), inner);
        assert(inner.push(kids[k])[0] == inner[0]);
        w
    }
}

/// The walk from a root reports a cycle where a walk along edges from the
/// root comes back to a node of itself, and nowhere else; and the edge
/// that it reports is an edge.
pub proof fn lemma_cycle_is_found(adj: Seq<Seq<usize>>, root: usize)
    requires
        is_closed_graph(adj),
        root < adj.len(),
    ensures
        dfs(adj, root).1 is Some <==> exists|w: Seq<usize>|
            is_walk(adj, w) && w[0] == root && !w.no_duplicates(),
        dfs(adj, root).1 matches Some(cycle) ==> edge_in(adj, cycle.0, cycle.1),
{
    let empty = Seq::<usize>::empty();
    if dfs(adj, root).1 is Some {
        assert(is_walk(adj, empty.push(root)));
        let w = lemma_cycle_is_real(adj, root, None, empty);
        assert(empty.push(root)[0] == root);
    } else {
        assert forall|w: Seq<usize>| is_walk(adj, w) && w[0] == root implies w.no_duplicates() by {
            lemma_no_cycle_is_simple(adj, root, None, empty, w);
        }
    }
}

/// Every visit of a walk but the first came from a node that the walk
/// visited before, along an edge.
proof fn lemma_visit_parents(
    adj: Seq<Seq<usize>>,
    node: usize,
    parent: Option<usize>,
    stack: Seq<usize>,
    i: int,
)
    requires
        1 <= i < visit(adj, node, parent, stack).0.len(),
    ensures
        visit(adj, node, parent, stack).0[0] == (node, parent),
        exists|j: int|
            0 <= j < i && visit(adj, node, parent, stack).0[i].1 == Some(
                #[trigger] visit(adj, node, parent, stack).0[j].0,
            ) && edge_in(
                adj,
                visit(adj, node, parent, stack).0[j].0,
                visit(adj, node, parent, stack).0[i].0,
            ),
    decreases adj.len() - stack.len(), 0nat,
{
    let all = visit(adj, node, parent, stack).0;
    let below = visit_all(adj, adj[node as int], node, stack.push(node)).0;
    assert(all[i] == below[i - 1]);
    assert(adj[node as int].skip(0) =~= adj[node as int]);
    lemma_visit_all_parents(adj, adj[node as int], node, stack.push(node), i - 1, 0);
    if below[i - 1].1 == Some(node) && edge_in(adj, node, below[i - 1].0) {
        assert(all[0].0 == node);
    } else {
        let j = choose|j: int|
            0 <= j < i - 1 && below[i - 1].1 == Some(#[trigger] below[j].0) && edge_in(
                adj,
                below[j].0,
                below[i - 1].0,
            );
        assert(all[j + 1] == below[j]);
    }
}

/// Every visit of the walks from some nodes that a node includes came from
/// that node, along an edge, or from a node that the walks visited before.
proof fn lemma_visit_all_parents(
    adj: Seq<Seq<usize>>,
    kids: Seq<usize>,
    parent: usize,
    stack: Seq<usize>,
    i: int,
    from: int,
)
    requires
        parent < adj.len(),
        0 <= from <= adj[parent as int].len(),
        kids == adj[parent as int].skip(from),
        0 <= i < visit_all(adj, kids, parent, stack).0.len(),
    ensures
        ({
            let all = visit_all(adj, kids, parent, stack).0;
            ||| all[i].1 == Some(parent) && edge_in(adj, parent, all[i].0)
            ||| exists|j: int|
                0 <= j < i && all[i].1 == Some(#[trigger] all[j].0) && edge_in(
                    adj,
                    all[j].0,
                    all[i].0,
                )
        }),
    decreases adj.len() - stack.len(), kids.len() + 1,
{
    let all = visit_all(adj, kids, parent, stack).0;
    let first = visit(adj, kids[0], Some(parent), stack);
    if i < first.0.len() {
        assert(all[i] == first.0[i]);
        if i == 0 {
            assert(first.0[0] == (kids[0], Some(parent)));
            assert(adj[parent as int][from] == kids[0]);
        } else {
            lemma_visit_parents(adj, kids[0], Some(parent), stack, i);
            let j = choose|j: int|
                0 <= j < i && first.0[i].1 == Some(#[trigger] first.0[j].0) && edge_in(
                    adj,
                    first.0[j].0,
                    first.0[i].0,
                );
            assert(all[j] == first.0[j]);
        }
    } else {
        let rest = visit_all(adj, kids.skip(1), parent, stack).0;
        let at = i - first.0.len();
        assert(all[i] == rest[at]);
        assert(kids.skip(1) =~= adj[parent as int].skip(from + 1));
        lemma_visit_all_parents(adj, kids.skip(1), parent, stack, at, from + 1);
        if rest[at].1 == Some(parent) && edge_in(adj, parent, rest[at].0) {
        } else {
            let j = choose|j: int|
                0 <= j < at && rest[at].1 == Some(#[trigger] rest[j].0) && edge_in(
                    adj,
                    rest[j].0,
                    rest[at].0,
                );
            assert(all[j + first.0.len()] == rest[j]);
        }
    }
}

/// A walk lists a file behind the file that includes it: the first visit
/// is that of the root, which came from no node, and every other visit
/// came from a node that the walk visited before, along an edge.
pub proof fn lemma_parent_is_visited_first(adj: Seq<Seq<usize>>, root: usize, i: int)
    requires
        0 <= i < dfs(adj, root).0.len(),
    ensures
        dfs(adj, root).0[0] == (root, None::<usize>),
        i >= 1 ==> exists|j: int|
            0 <= j < i && dfs(adj, root).0[i].1 == Some(#[trigger] dfs(adj, root).0[j].0)
                && edge_in(adj, dfs(adj, root).0[j].0, dfs(adj, root).0[i].0),
{
    if i >= 1 {
        lemma_visit_parents(adj, root, None, Seq::empty(), i);
    }
}

/// The nodes seen from a parent in two rows of visits are those seen in
/// the first and then those seen in the second.
proof fn lemma_children_seen_concat(a: Seq<Visit>, b: Seq<Visit>, parent: usize)
    ensures
        children_seen(a + b, parent) == children_seen(a, parent) + children_seen(b, parent),
    decreases b.len(),
{
    if b.len() == 0 {
        assert(a + b =~= a);
        assert(children_seen(a, parent) + children_seen(b, parent) =~= children_seen(a, parent));
    } else {
        lemma_children_seen_concat(a, b.drop_last(), parent);
        assert((a + b).drop_last() =~= a + b.drop_last());
        assert((a + b).last() == b.last());
        let front = children_seen(a, parent);
        let back = children_seen(b.drop_last(), parent);
        if b.last().1 == Some(parent) {
            assert(front + back.push(b.last().0) =~= (front + back).push(b.last().0));
        }
    }
}

/// Where no visit came from `parent`, no node is seen from it.
proof fn lemma_children_seen_none(entries: Seq<Visit>, parent: usize)
    requires
        forall|i: int| 0 <= i < entries.len() ==> entries[i].1 != Some(parent),
    ensures
        children_seen(entries, parent) == Seq::<usize>::empty(),
    decreases entries.len(),
{
    if entries.len() > 0 {
        assert forall|i: int| 0 <= i < entries.drop_last().len() implies entries.drop_last()[i].1
            != Some(parent) by {
            assert(entries.drop_last()[i] == entries[i]);
        }
        lemma_children_seen_none(entries.drop_last(), parent);
        assert(entries[entries.len() - 1].1 != Some(parent));
    }
}

/// A walk that meets no cycle visits no node of the stack.
proof fn lemma_visited_off_stack(
    adj: Seq<Seq<usize>>,
    node: usize,
    parent: Option<usize>,
    stack: Seq<usize>,
    i: int,
)
    requires
        visit(adj, node, parent, stack).1 is None,
        0 <= i < visit(adj, node, parent, stack).0.len(),
    ensures
        !stack.contains(visit(adj, node, parent, stack).0[i].0),
    decreases adj.len() - stack.len(), 0nat,
{
    let all = visit(adj, node, parent, stack).0;
    if i > 0 {
        let inner = stack.push(node);
        let below = visit_all(adj, adj[node as int], node, inner).0;
        assert(all[i] == below[i - 1]);
        lemma_visited_all_off_stack(adj, adj[node as int], node, inner, i - 1);
        if stack.contains(all[i].0) {
            let at = choose|at: int| 0 <= at < stack.len() && stack[at] == all[i].0;
            assert(inner[at] == all[i].0);
        }
    }
}

/// Walks that meet no cycle visit no node of the stack.
proof fn lemma_visited_all_off_stack(
    adj: Seq<Seq<usize>>,
    kids: Seq<usize>,
    parent: usize,
    stack: Seq<usize>,
    i: int,
)
    requires
        visit_all(adj, kids, parent, stack).1 is None,
        0 <= i < visit_all(adj, kids, parent, stack).0.len(),
    ensures
        !stack.contains(visit_all(adj, kids, parent, stack).0[i].0),
    decreases adj.len() - stack.len(), kids.len() + 1,
{
    let all = visit_all(adj, kids, parent, stack).0;
    let first = visit(adj, kids[0], Some(parent), stack);
    if i < first.0.len() {
        assert(all[i] == first.0[i]);
        lemma_visited_off_stack(adj, kids[0], Some(parent), stack, i);
    } else {
        let rest = visit_all(adj, kids.skip(1), parent, stack).0;
        assert(all[i] == rest[i - first.0.len()]);
        lemma_visited_all_off_stack(adj, kids.skip(1), parent, stack, i - first.0.len());
    }
}

/// In the walk from a node that was reached from a node of the stack, and
/// that meets no cycle, the node itself is the only one that came from
/// that node of the stack.
proof fn lemma_one_child_seen(
    adj: Seq<Seq<usize>>,
    node: usize,
    parent: usize,
    stack: Seq<usize>,
)
    requires
        stack.contains(parent),
        visit(adj, node, Some(parent), stack).1 is None,
    ensures
        children_seen(visit(adj, node, Some(parent), stack).0, parent) == seq![node],
{
    let all = visit(adj, node, Some(parent), stack).0;
    let first = seq![(node, Some(parent))];
    let below = all.skip(1);
    assert(all =~= first + below);
    assert forall|i: int| 0 <= i < below.len() implies below[i].1 != Some(parent) by {
        assert(below[i] == all[i + 1]);
        lemma_visit_parents(adj, node, Some(parent), stack, i + 1);
        let j = choose|j: int|
            0 <= j < i + 1 && all[i + 1].1 == Some(#[trigger] all[j].0) && edge_in(
                adj,
                all[j].0,
                all[i + 1].0,
            );
        lemma_visited_off_stack(adj, node, Some(parent), stack, j);
    }
    lemma_children_seen_none(below, parent);
    lemma_children_seen_concat(first, below, parent);
    assert(first.drop_last() =~= Seq::<Visit>::empty());
    assert(children_seen(first.drop_last(), parent) =~= Seq::<usize>::empty());
    assert(first.last() == (node, Some(parent)));
    assert(children_seen(first, parent) =~= seq![node]);
    assert(seq![node] + Seq::<usize>::empty() =~= seq![node]);
}

/// In the walks from some nodes that were reached from a node of the
/// stack, and that meet no cycle, those nodes are the ones that came from
/// that node of the stack, in their order.
proof fn lemma_children_seen_in_order(
    adj: Seq<Seq<usize>>,
    kids: Seq<usize>,
    parent: usize,
    stack: Seq<usize>,
)
    requires
        stack.contains(parent),
        visit_all(adj, kids, parent, stack).1 is None,
    ensures
        children_seen(visit_all(adj, kids, parent, stack).0, parent) == kids,
    decreases kids.len(),
{
    if kids.len() == 0 {
        assert(kids =~= Seq::<usize>::empty());
    } else {
        let first = visit(adj, kids[0], Some(parent), stack);
        let rest = visit_all(adj, kids.skip(1), parent, stack);
        lemma_one_child_seen(adj, kids[0], parent, stack);
        lemma_children_seen_in_order(adj, kids.skip(1), parent, stack);
        lemma_children_seen_concat(first.0, rest.0, parent);
        assert(seq![kids[0]] + kids.skip(1) =~= kids);
    }
}

/// A walk visits the files that a file includes in the order of the
/// file's edges: in a walk that meets no cycle, the visits that came from
/// the root are those of the nodes that the root includes, one for each
/// edge, in the order of the edges.
pub proof fn lemma_siblings_keep_their_order(adj: Seq<Seq<usize>>, root: usize)
    requires
        root < adj.len(),
        dfs(adj, root).1 is None,
    ensures
        children_seen(dfs(adj, root).0, root) == adj[root as int],
{
    let stack = Seq::<usize>::empty().push(root);
    let first = seq![(root, None::<usize>)];
    let below = visit_all(adj, adj[root as int], root, stack);
    assert(stack[0] == root);
    lemma_children_seen_in_order(adj, adj[root as int], root, stack);
    lemma_children_seen_concat(first, below.0, root);
    assert(first.drop_last() =~= Seq::<Visit>::empty());
    assert(children_seen(first.drop_last(), root) =~= Seq::<usize>::empty());
    assert(first.last() == (root, None::<usize>));
    assert(children_seen(first, root) =~= Seq::<usize>::empty());
    assert(Seq::<usize>::empty() + adj[root as int] =~= adj[root as int]);
}

/// The number of the visits of `node` among `entries`.
pub open spec fn visits_of(entries: Seq<Visit>, node: usize) -> nat
    decreases entries.len(),
{
    if entries.len() == 0 {
        0
    } else if entries.last().0 == node {
        visits_of(entries.drop_last(), node) + 1
    } else {
        visits_of(entries.drop_last(), node)
    }
}

/// The list `list`, `n` times in a row.
pub open spec fn repeated(list: Seq<usize>, n: nat) -> Seq<usize>
    decreases n,
{
    if n == 0 {
        Seq::empty()
    } else {
        repeated(list, (n - 1) as nat) + list
    }
}

/// A list that stands `a` times and then `b` times stands `a + b` times.
proof fn lemma_repeated_add(list: Seq<usize>, a: nat, b: nat)
    ensures
        repeated(list, a) + repeated(list, b) == repeated(list, a + b),
    decreases b,
{
    if b == 0 {
        assert(repeated(list, a) + repeated(list, b) =~= repeated(list, a));
    } else {
        lemma_repeated_add(list, a, (b - 1) as nat);
        assert(repeated(list, a) + (repeated(list, (b - 1) as nat) + list) =~= (repeated(list, a)
            + repeated(list, (b - 1) as nat)) + list);
    }
}

/// The visits of a node in two rows of visits are those in the first and
/// those in the second.
proof fn lemma_visits_of_concat(a: Seq<Visit>, b: Seq<Visit>, node: usize)
    ensures
        visits_of(a + b, node) == visits_of(a, node) + visits_of(b, node),
    decreases b.len(),
{
    if b.len() == 0 {
        assert(a + b =~= a);
    } else {
        lemma_visits_of_concat(a, b.drop_last(), node);
        assert((a + b).drop_last() =~= a + b.drop_last());
        assert((a + b).last() == b.last());
    }
}

/// A node that no entry visits has no visit.
proof fn lemma_visits_of_none(entries: Seq<Visit>, node: usize)
    requires
        forall|i: int| 0 <= i < entries.len() ==> entries[i].0 != node,
    ensures
        visits_of(entries, node) == 0,
    decreases entries.len(),
{
    if entries.len() > 0 {
        assert forall|i: int| 0 <= i < entries.drop_last().len() implies entries.drop_last()[i].0
            != node by {
            assert(entries.drop_last()[i] == entries[i]);
        }
        lemma_visits_of_none(entries.drop_last(), node);
        assert(entries[entries.len() - 1].0 != node);
    }
}

/// Whether the nodes of `stack` are nodes of `adj`, each once.
pub open spec fn is_stack(adj: Seq<Seq<usize>>, stack: Seq<usize>) -> bool {
    &&& stack.no_duplicates()
    &&& forall|i: int| 0 <= i < stack.len() ==> stack[i] < adj.len()
}

/// A stack stays one when a node that is not on it is put on it, and it
/// does not hold every node then.
proof fn lemma_stack_push(adj: Seq<Seq<usize>>, stack: Seq<usize>, node: usize)
    requires
        is_stack(adj, stack),
        node < adj.len(),
        !stack.contains(node),
    ensures
        is_stack(adj, stack.push(node)),
        stack.len() < adj.len(),
        stack.push(node).contains(node),
{
    let inner = stack.push(node);
    assert forall|a: int, b: int| 0 <= a < b < inner.len() implies inner[a] != inner[b] by {
        if b == stack.len() {
            assert(inner[a] == stack[a]);
            if stack[a] == node {
                assert(stack.contains(node));
            }
        }
    }
    lemma_pigeonhole(inner, adj.len());
    assert(inner[stack.len() as int] == node);
}

/// In a walk that meets no cycle, the nodes that came from the node `p`
/// are the nodes that `p` includes, in the order of its edges, once for
/// each visit of `p`; in front of them stands the node of the walk itself
/// where it was reached from `p`.
proof fn lemma_visit_children(
    adj: Seq<Seq<usize>>,
    node: usize,
    parent: Option<usize>,
    stack: Seq<usize>,
    p: usize,
)
    requires
        is_closed_graph(adj),
        is_stack(adj, stack),
        node < adj.len(),
        p < adj.len(),
        visit(adj, node, parent, stack).1 is None,
    ensures
        children_seen(visit(adj, node, parent, stack).0, p) == (if parent == Some(p) {
            seq![node]
        } else {
            Seq::empty()
        }) + repeated(adj[p as int], visits_of(visit(adj, node, parent, stack).0, p)),
    decreases adj.len() - stack.len(), 0nat,
{
    let all = visit(adj, node, parent, stack).0;
    let inner = stack.push(node);
    lemma_stack_push(adj, stack, node);
    let first = seq![(node, parent)];
    let below = visit_all(adj, adj[node as int], node, inner).0;
    assert(all == first + below);
    assert(adj[node as int].skip(0) =~= adj[node as int]);
    lemma_visit_all_children(adj, adj[node as int], node, inner, p, 0);
    lemma_children_seen_concat(first, below, p);
    lemma_visits_of_concat(first, below, p);
    assert(first.drop_last() =~= Seq::<Visit>::empty());
    assert(children_seen(first.drop_last(), p) =~= Seq::<usize>::empty());
    assert(visits_of(first.drop_last(), p) == 0);
    assert(first.last() == (node, parent));
    let head = if parent == Some(p) {
        seq![node]
    } else {
        Seq::<usize>::empty()
    };
    assert(children_seen(first, p) =~= head);
    if node == p {
        assert(visits_of(first, p) == 1);
        assert(repeated(adj[p as int], 0) =~= Seq::<usize>::empty());
        assert(repeated(adj[p as int], 1) =~= adj[p as int]);
    } else {
        assert(visits_of(first, p) == 0);
    }
}

/// See [`lemma_visit_children`]: the same of the walks from the nodes that
/// a node of the stack includes.
proof fn lemma_visit_all_children(
    adj: Seq<Seq<usize>>,
    kids: Seq<usize>,
    parent: usize,
    stack: Seq<usize>,
    p: usize,
    from: int,
)
    requires
        is_closed_graph(adj),
        is_stack(adj, stack),
        stack.contains(parent),
        parent < adj.len(),
        0 <= from <= adj[parent as int].len(),
        kids == adj[parent as int].skip(from),
        p < adj.len(),
        visit_all(adj, kids, parent, stack).1 is None,
    ensures
        parent == p ==> children_seen(visit_all(adj, kids, parent, stack).0, p) == kids
            && visits_of(visit_all(adj, kids, parent, stack).0, p) == 0,
        parent != p ==> children_seen(visit_all(adj, kids, parent, stack).0, p) == repeated(
            adj[p as int],
            visits_of(visit_all(adj, kids, parent, stack).0, p),
        ),
    decreases adj.len() - stack.len(), kids.len() + 1,
{
    let all = visit_all(adj, kids, parent, stack).0;
    if kids.len() == 0 {
        assert(kids =~= Seq::<usize>::empty());
    } else {
        let first = visit(adj, kids[0], Some(parent), stack).0;
        let rest = visit_all(adj, kids.skip(1), parent, stack).0;
        assert(kids[0] == adj[parent as int][from]);
        assert(kids.skip(1) =~= adj[parent as int].skip(from + 1));
        lemma_visit_children(adj, kids[0], Some(parent), stack, p);
        lemma_visit_all_children(adj, kids.skip(1), parent, stack, p, from + 1);
        lemma_children_seen_concat(first, rest, p);
        lemma_visits_of_concat(first, rest, p);
        if parent == p {
            assert forall|i: int| 0 <= i < first.len() implies first[i].0 != p by {
                lemma_visited_off_stack(adj, kids[0], Some(parent), stack, i);
            }
            lemma_visits_of_none(first, p);
            assert(repeated(adj[p as int], 0) =~= Seq::<usize>::empty());
            assert((seq![kids[0]] + Seq::<usize>::empty()) + kids.skip(1) =~= kids);
        } else {
            lemma_repeated_add(adj[p as int], visits_of(first, p), visits_of(rest, p));
            assert(Seq::<usize>::empty() + repeated(adj[p as int], visits_of(first, p))
                =~= repeated(adj[p as int], visits_of(first, p)));
        }
    }
}

/// A walk visits the files that a file includes in the order of the
/// file's edges, wherever it visits the file: in a walk that meets no
/// cycle, the visits that came from a node are those of the nodes that it
/// includes, one for each edge, in the order of the edges, once for each
/// visit of the node.
pub proof fn lemma_children_follow_in_edge_order(adj: Seq<Seq<usize>>, root: usize, p: usize)
    requires
        is_closed_graph(adj),
        root < adj.len(),
        p < adj.len(),
        dfs(adj, root).1 is None,
    ensures
        children_seen(dfs(adj, root).0, p) == repeated(
            adj[p as int],
            visits_of(dfs(adj, root).0, p),
        ),
{
    lemma_visit_children(adj, root, None, Seq::empty(), p);
    assert(Seq::<usize>::empty() + repeated(adj[p as int], visits_of(dfs(adj, root).0, p))
        =~= repeated(adj[p as int], visits_of(dfs(adj, root).0, p)));
}

} // verus!
