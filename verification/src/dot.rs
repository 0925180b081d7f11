//! The include graph in the DOT language.
//!
//! The text names each node by its id and labels it with its path, and
//! names each edge by the ids of its two nodes and labels it with the line
//! of the directive:
//!
//! ```text
//! digraph {
//!     0 [ label = "/w/shaders/a.fsh" ]
//!     1 [ label = "/w/shaders/b.glsl" ]
//!     0 -> 1 [ label = "{line: 1}" ]
//! }
//! ```

use crate::graph::CachedStableGraph;
use crate::text::{ascii, ascii_bytes, decimal, push_bytes, push_decimal};
use crate::IncludePosition;
use vstd::prelude::*;

verus! {

/// `s` as it stands between two quotes: with a backslash in front of each
/// quote and of each backslash.
pub open spec fn escaped(s: Seq<u8>) -> Seq<u8>
    decreases s.len(),
{
    if s.len() == 0 {
        Seq::empty()
    } else if s.last() == '"' as u8 || s.last() == '\\' as u8 {
        escaped(s.drop_last()).push('\\' as u8).push(s.last())
    } else {
        escaped(s.drop_last()).push(s.last())
    }
}

/// The line of the node `node` with the path `path`.
pub open spec fn node_line(node: nat, path: Seq<u8>) -> Seq<u8> {
    ascii("    ") + decimal(node) + ascii(" [ label = \"") + escaped(path) + ascii("\" ]\n")
}

/// The line of an edge from the node `from` to the node `to`.
pub open spec fn edge_line(from: nat, to: nat, position: IncludePosition) -> Seq<u8> {
    ascii("    ") + decimal(from) + ascii(" -> ") + decimal(to) + ascii(" [ label = \"")
        + position.label_of() + ascii("\" ]\n")
}

/// The lines of the first `n` nodes.
pub open spec fn node_lines(paths: Seq<Seq<u8>>, n: int) -> Seq<u8>
    decreases n,
{
    if n <= 0 {
        Seq::empty()
    } else {
        node_lines(paths, n - 1) + node_line((n - 1) as nat, paths[n - 1])
    }
}

/// The lines of the first `k` edges of the node `from`.
pub open spec fn edge_lines_of(from: nat, list: Seq<(usize, IncludePosition)>, k: int) -> Seq<u8>
    decreases k,
{
    if k <= 0 {
        Seq::empty()
    } else {
        edge_lines_of(from, list, k - 1) + edge_line(from, list[k - 1].0 as nat, list[k - 1].1)
    }
}

/// The lines of the edges of the first `n` nodes.
pub open spec fn edge_lines(edges: Seq<Seq<(usize, IncludePosition)>>, n: int) -> Seq<u8>
    decreases n,
{
    if n <= 0 {
        Seq::empty()
    } else {
        edge_lines(edges, n - 1) + edge_lines_of(
            (n - 1) as nat,
            edges[n - 1],
            edges[n - 1].len() as int,
        )
    }
}

/// The graph in the DOT language: the nodes by rising id, then the edges
/// by the id of the node that they leave and, for one node, in the order in
/// which they were added.
pub open spec fn dot_of(graph: CachedStableGraph) -> Seq<u8> {
    ascii("digraph {\n") + node_lines(graph.paths(), graph.paths().len() as int) + edge_lines(
        graph.edges(),
        graph.paths().len() as int,
    ) + ascii("}\n")
}

/// Appends `s` to `out` as it stands between two quotes.
fn push_escaped(out: &mut Vec<u8>, s: &[u8])
    ensures
        final(out)@ == old(out)@ + escaped(s@),
{
    let mut i: usize = 0;
    assert(s@.take(0) =~= Seq::<u8>::empty());
    assert(out@ =~= old(out)@ + escaped(s@.take(0)));
    while i < s.len()
        invariant
            i <= s.len(),
            out@ == old(out)@ + escaped(s@.take(i as int)),
        decreases s.len() - i,
    {
        assert(s@.take(i + 1).drop_last() =~= s@.take(i as int));
        assert(s@.take(i + 1).last() == s@[i as int]);
        if s[i] == '"' as u8 || s[i] == '\\' as u8 {
            out.push('\\' as u8);
        }
        out.push(s[i]);
        assert(out@ =~= old(out)@ + escaped(s@.take(i + 1)));
        i += 1;
    }
    assert(s@.take(i as int) =~= s@);
}

impl CachedStableGraph {
    /// The graph in the DOT language, see [`dot_of`].
    pub fn dot(&self) -> (text: Vec<u8>)
        requires
            self.wf(),
        ensures
            text@ == dot_of(*self),
    {
        proof {
            reveal_strlit("digraph {\n");
            reveal_strlit("    ");
            reveal_strlit(" [ label = \"");
            reveal_strlit("\" ]\n");
            reveal_strlit(" -> ");
            reveal_strlit("}\n");
        }
        let indent = ascii_bytes("    ");
        let label = ascii_bytes(" [ label = \"");
        let end = ascii_bytes("\" ]\n");
        let arrow = ascii_bytes(" -> ");
        let n = self.node_count();
        let mut text = crate::text::to_vec(ascii_bytes("digraph {\n"));
        let ghost head = text@;
        let mut node: usize = 0;
        assert(text@ =~= head + node_lines(self.paths(), 0));
        while node < n
            invariant
                self.wf(),
                n == self.paths().len(),
                node <= n,
                indent@ == ascii("    "),
                label@ == ascii(" [ label = \""),
                end@ == ascii("\" ]\n"),
                text@ == head + node_lines(self.paths(), node as int),
            decreases n - node,
        {
            let ghost had = text@;
            let path = self.get_node(node);
            push_bytes(&mut text, indent);
            push_decimal(&mut text, node as u128);
            push_bytes(&mut text, label);
            push_escaped(&mut text, path.as_slice());
            push_bytes(&mut text, end);
            assert(text@ =~= had + node_line(node as nat, self.paths()[node as int]));
            node += 1;
            assert(text@ =~= head + node_lines(self.paths(), node as int));
        }
        let ghost front = text@;
        let mut from: usize = 0;
        assert(text@ =~= front + edge_lines(self.edges(), 0));
        while from < n
            invariant
                self.wf(),
                n == self.paths().len(),
                from <= n,
                indent@ == ascii("    "),
                label@ == ascii(" [ label = \""),
                end@ == ascii("\" ]\n"),
                arrow@ == ascii(" -> "),
                text@ == front + edge_lines(self.edges(), from as int),
            decreases n - from,
        {
            let list = self.child_edges(from);
            let ghost before = text@;
            let mut k: usize = 0;
            assert(text@ =~= before + edge_lines_of(from as nat, list@, 0));
            while k < list.len()
                invariant
                    k <= list.len(),
                    indent@ == ascii("    "),
                    label@ == ascii(" [ label = \""),
                    end@ == ascii("\" ]\n"),
                    arrow@ == ascii(" -> "),
                    text@ == before + edge_lines_of(from as nat, list@, k as int),
                decreases list.len() - k,
            {
                let ghost had = text@;
                let (to, position) = list[k];
                push_bytes(&mut text, indent);
                push_decimal(&mut text, from as u128);
                push_bytes(&mut text, arrow);
                push_decimal(&mut text, to as u128);
                push_bytes(&mut text, label);
                let shown = position.label();
                push_bytes(&mut text, shown.as_slice());
                push_bytes(&mut text, end);
                assert(text@ =~= had + edge_line(from as nat, to as nat, position));
                k += 1;
                assert(text@ =~= before + edge_lines_of(from as nat, list@, k as int));
            }
            from += 1;
            assert(text@ =~= front + edge_lines(self.edges(), from as int));
        }
        proof {
            reveal_strlit("}\n");
        }
        push_bytes(&mut text, ascii_bytes("}\n"));
        assert(text@ =~= dot_of(*self));
        text
    }
}

} // verus!
