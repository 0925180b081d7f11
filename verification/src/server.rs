//! The server's state, and what it does to the include graph when a file is
//! found, opened or saved.

use crate::dfs::{dfs, CycleError, Visit};
use crate::graph::{lemma_meta_kept, targets, with_path, with_paths, CachedStableGraph};
use crate::includes::{include_views, includes_in, line_views, scan_includes};
use crate::lint::{
    load_sources, plan_lint, raw_views, read_count, read_views, source_files, sources_from,
    with_nodes, with_paths_of, LintError, LintPlan,
};
use crate::merge_views::source_views;
use crate::paths::{is_seed_file, is_seed_path, is_within, path_is_within};
use crate::protocol::{
    link_views, views, DocumentLink, DocumentLinkView, FileDiagnostics, MethodError, Position,
    PublishDiagnosticsParams, Range,
};
use crate::text::{bytes_eq, to_vec};
use crate::IncludePosition;
use vstd::prelude::*;

verus! {

/// One include of a file: the path of the included file and the place of
/// the directive.
pub type Include = (Seq<u8>, IncludePosition);

/// Whether the include at the place `k` of `list` stays when the file is
/// scanned again and makes the includes `wanted`: `wanted` holds it, and
/// `list` holds it at no place in front of `k`.
pub open spec fn kept_at(list: Seq<Include>, wanted: Seq<Include>, k: int) -> bool {
    wanted.contains(list[k]) && !list.take(k).contains(list[k])
}

/// The includes of `list` from the place `from` on that stay, see
/// [`kept_at`].
pub open spec fn kept_from(list: Seq<Include>, wanted: Seq<Include>, from: int) -> Seq<Include>
    decreases list.len() - from,
{
    if from < 0 || from >= list.len() {
        Seq::empty()
    } else if kept_at(list, wanted, from) {
        seq![list[from]] + kept_from(list, wanted, from + 1)
    } else {
        kept_from(list, wanted, from + 1)
    }
}

/// Whether the include at the place `k` of `list` is new to a file that
/// has the includes `known`: `known` does not hold it, and `list` holds it
/// at no place in front of `k`.
pub open spec fn new_at(list: Seq<Include>, known: Seq<Include>, k: int) -> bool {
    !known.contains(list[k]) && !list.take(k).contains(list[k])
}

/// The includes of `list` in front of the place `to` that are new, see
/// [`new_at`].
pub open spec fn new_upto(list: Seq<Include>, known: Seq<Include>, to: int) -> Seq<Include>
    decreases to,
{
    if to <= 0 || to > list.len() {
        Seq::empty()
    } else if new_at(list, known, to - 1) {
        new_upto(list, known, to - 1).push(list[to - 1])
    } else {
        new_upto(list, known, to - 1)
    }
}

/// The includes of a file after it was scanned again: those that it had
/// and still makes, in their order, then those that it makes and had not.
pub open spec fn updated(had: Seq<Include>, now: Seq<Include>) -> Seq<Include> {
    kept_from(had, now, 0) + new_upto(now, had, now.len() as int)
}

/// A list that holds an include holds it at a first place.
proof fn lemma_first_place(list: Seq<Include>, entry: Include, i: int)
    requires
        0 <= i < list.len(),
        list[i] == entry,
    ensures
        exists|k: int| 0 <= k <= i && list[k] == entry && !list.take(k).contains(entry),
    decreases i,
{
    if list.take(i).contains(entry) {
        let j = choose|j: int| 0 <= j < list.take(i).len() && list.take(i)[j] == entry;
        lemma_first_place(list, entry, j);
    }
}

/// The includes that stay are those that the list holds from `from` on at
/// a place where they stay, each once.
proof fn lemma_kept_from(list: Seq<Include>, wanted: Seq<Include>, from: int)
    requires
        0 <= from <= list.len(),
    ensures
        kept_from(list, wanted, from).no_duplicates(),
        forall|entry: Include|
            kept_from(list, wanted, from).contains(entry) <==> exists|k: int|
                from <= k < list.len() && list[k] == entry && kept_at(list, wanted, k),
    decreases list.len() - from,
{
    let all = kept_from(list, wanted, from);
    if from < list.len() {
        let rest = kept_from(list, wanted, from + 1);
        lemma_kept_from(list, wanted, from + 1);
        assert forall|entry: Include| all.contains(entry) <==> exists|k: int|
            from <= k < list.len() && list[k] == entry && kept_at(list, wanted, k) by {
            if all.contains(entry) {
                let at = choose|at: int| 0 <= at < all.len() && all[at] == entry;
                if kept_at(list, wanted, from) && at == 0 {
                    assert(list[from] == entry);
                } else {
                    if kept_at(list, wanted, from) {
                        assert(rest[at - 1] == entry);
                    } else {
                        assert(rest[at] == entry);
                    }
                    assert(rest.contains(entry));
                }
            }
            if exists|k: int|
                from <= k < list.len() && list[k] == entry && kept_at(list, wanted, k) {
                let k = choose|k: int|
                    from <= k < list.len() && list[k] == entry && kept_at(list, wanted, k);
                if k == from {
                    assert(all[0] == entry);
                } else {
                    assert(rest.contains(entry));
                    let at = choose|at: int| 0 <= at < rest.len() && rest[at] == entry;
                    if kept_at(list, wanted, from) {
                        assert(all[at + 1] == entry);
                    } else {
                        assert(all[at] == entry);
                    }
                }
            }
        }
        if kept_at(list, wanted, from) {
            assert forall|i: int, j: int| 0 <= i < j < all.len() implies all[i] != all[j] by {
                if i == 0 {
                    assert(rest[j - 1] == all[j]);
                    if all[j] == list[from] {
                        assert(rest.contains(list[from]));
                        let k = choose|k: int|
                            from + 1 <= k < list.len() && list[k] == list[from] && kept_at(
                                list,
                                wanted,
                                k,
                            );
                        assert(list.take(k)[from] == list[from]);
                    }
                } else {
                    assert(rest[i - 1] == all[i] && rest[j - 1] == all[j]);
                }
            }
        }
    }
}

/// The includes that are new are those that the list holds in front of
/// `to` at a place where they are new, each once.
proof fn lemma_new_upto(list: Seq<Include>, known: Seq<Include>, to: int)
    requires
        0 <= to <= list.len(),
    ensures
        new_upto(list, known, to).no_duplicates(),
        forall|entry: Include|
            new_upto(list, known, to).contains(entry) <==> exists|k: int|
                0 <= k < to && list[k] == entry && new_at(list, known, k),
    decreases to,
{
    let all = new_upto(list, known, to);
    if to > 0 {
        let before = new_upto(list, known, to - 1);
        lemma_new_upto(list, known, to - 1);
        assert forall|entry: Include| all.contains(entry) <==> exists|k: int|
            0 <= k < to && list[k] == entry && new_at(list, known, k) by {
            if all.contains(entry) {
                let at = choose|at: int| 0 <= at < all.len() && all[at] == entry;
                if new_at(list, known, to - 1) && at == all.len() - 1 {
                    assert(list[to - 1] == entry);
                } else {
                    assert(before[at] == entry);
                    assert(before.contains(entry));
                }
            }
            if exists|k: int| 0 <= k < to && list[k] == entry && new_at(list, known, k) {
                let k = choose|k: int| 0 <= k < to && list[k] == entry && new_at(list, known, k);
                if k == to - 1 {
                    assert(all[all.len() - 1] == entry);
                } else {
                    assert(before.contains(entry));
                    let at = choose|at: int| 0 <= at < before.len() && before[at] == entry;
                    assert(all[at] == entry);
                }
            }
        }
        if new_at(list, known, to - 1) {
            assert forall|i: int, j: int| 0 <= i < j < all.len() implies all[i] != all[j] by {
                if j == all.len() - 1 {
                    assert(before[i] == all[i]);
                    if all[i] == list[to - 1] {
                        assert(before.contains(list[to - 1]));
                        let k = choose|k: int|
                            0 <= k < to - 1 && list[k] == list[to - 1] && new_at(list, known, k);
                        assert(list.take(to - 1)[k] == list[to - 1]);
                    }
                } else {
                    assert(before[i] == all[i] && before[j] == all[j]);
                }
            }
        }
    }
}

/// After a file was scanned again, its edges are the includes that it
/// makes now: each include that it makes has one edge, and there is no
/// other edge.
pub proof fn lemma_updated_is_wanted(had: Seq<Include>, now: Seq<Include>)
    ensures
        updated(had, now).no_duplicates(),
        forall|entry: Include| updated(had, now).contains(entry) <==> now.contains(entry),
{
    let kept = kept_from(had, now, 0);
    let fresh = new_upto(now, had, now.len() as int);
    let all = updated(had, now);
    lemma_kept_from(had, now, 0);
    lemma_new_upto(now, had, now.len() as int);
    assert forall|entry: Include| all.contains(entry) <==> now.contains(entry) by {
        if all.contains(entry) {
            let at = choose|at: int| 0 <= at < all.len() && all[at] == entry;
            if at < kept.len() {
                assert(kept[at] == entry);
                assert(kept.contains(entry));
            } else {
                assert(fresh[at - kept.len()] == entry);
                assert(fresh.contains(entry));
            }
        }
        if now.contains(entry) {
            if had.contains(entry) {
                let i = choose|i: int| 0 <= i < had.len() && had[i] == entry;
                lemma_first_place(had, entry, i);
                let k = choose|k: int|
                    0 <= k <= i && had[k] == entry && !had.take(k).contains(entry);
                assert(kept_at(had, now, k));
                assert(kept.contains(entry));
                let at = choose|at: int| 0 <= at < kept.len() && kept[at] == entry;
                assert(all[at] == entry);
            } else {
                let i = choose|i: int| 0 <= i < now.len() && now[i] == entry;
                lemma_first_place(now, entry, i);
                let k = choose|k: int|
                    0 <= k <= i && now[k] == entry && !now.take(k).contains(entry);
                assert(new_at(now, had, k));
                assert(fresh.contains(entry));
                let at = choose|at: int| 0 <= at < fresh.len() && fresh[at] == entry;
                assert(all[kept.len() + at] == entry);
            }
        }
    }
    assert forall|i: int, j: int| 0 <= i < j < all.len() implies all[i] != all[j] by {
        if j < kept.len() {
            assert(kept[i] == all[i] && kept[j] == all[j]);
        } else if i >= kept.len() {
            assert(fresh[i - kept.len()] == all[i] && fresh[j - kept.len()] == all[j]);
        } else {
            assert(kept[i] == all[i]);
            assert(fresh[j - kept.len()] == all[j]);
            assert(kept.contains(all[i]));
            assert(fresh.contains(all[j]));
            if all[i] == all[j] {
                let k = choose|k: int|
                    0 <= k < had.len() && had[k] == all[i] && kept_at(had, now, k);
                assert(had.contains(all[i]));
            }
        }
    }
}

/// The link that an include makes: from the place of the directive to the
/// included file. An include whose line or columns are too large for `u32`
/// makes none.
pub open spec fn link_of(entry: Include) -> Option<DocumentLinkView> {
    if entry.1.line <= u32::MAX && entry.1.start <= u32::MAX && entry.1.end <= u32::MAX {
        Some(
            DocumentLinkView {
                range: Range {
                    start: Position { line: entry.1.line as u32, character: entry.1.start as u32 },
                    end: Position { line: entry.1.line as u32, character: entry.1.end as u32 },
                },
                target: entry.0,
            },
        )
    } else {
        None
    }
}

/// The links that the includes `list` make, in their order.
pub open spec fn links_of(list: Seq<Include>) -> Seq<DocumentLinkView>
    decreases list.len(),
{
    if list.len() == 0 {
        Seq::empty()
    } else {
        match link_of(list.last()) {
            Some(link) => links_of(list.drop_last()).push(link),
            None => links_of(list.drop_last()),
        }
    }
}

/// What a graph holds: the path of each node, and the includes of each
/// node, by node id.
pub struct GraphView {
    pub paths: Seq<Seq<u8>>,
    pub includes: Seq<Seq<Include>>,
}

/// What `graph` holds.
pub open spec fn view_of(graph: CachedStableGraph) -> GraphView {
    GraphView {
        paths: graph.paths(),
        includes: Seq::new(graph.paths().len(), |node: int| graph.meta(node)),
    }
}

/// The includes of `node` in `view`; none where `node` is no node.
pub open spec fn includes_of(view: GraphView, node: int) -> Seq<Include> {
    if 0 <= node < view.includes.len() {
        view.includes[node]
    } else {
        Seq::empty()
    }
}

/// What a graph holds after the file `file` was added to it with the
/// includes `found`: a node for the file and for each included file, where
/// there was none, and the includes behind those that the file had.
pub open spec fn with_file(view: GraphView, file: Seq<u8>, found: Seq<Include>) -> GraphView {
    let paths = with_paths(view.paths, seq![file] + targets(found));
    GraphView {
        paths,
        includes: Seq::new(
            paths.len(),
            |node: int|
                if paths[node] == file {
                    includes_of(view, node) + found
                } else {
                    includes_of(view, node)
                },
        ),
    }
}

/// What the files `v` hold.
pub open spec fn file_views(v: Seq<(Vec<u8>, Vec<Option<Vec<u8>>>)>) -> Seq<
    (Seq<u8>, Seq<Option<Seq<u8>>>),
> {
    Seq::new(v.len(), |i: int| (v[i].0@, line_views(v[i].1@)))
}

/// What a graph holds after the files `files` were added to it, one after
/// the other, each with the includes that its lines make; a file whose
/// extension the walk over a workspace does not take up is left out.
pub open spec fn with_files(
    view: GraphView,
    root: Seq<u8>,
    files: Seq<(Seq<u8>, Seq<Option<Seq<u8>>>)>,
) -> GraphView
    decreases files.len(),
{
    if files.len() == 0 {
        view
    } else {
        let before = with_files(view, root, files.drop_last());
        if is_seed_path(files.last().0) {
            with_file(before, files.last().0, includes_in(root, files.last().0, files.last().1))
        } else {
            before
        }
    }
}

/// Whether `after` has grown from `before`: it holds the nodes of `before`
/// under their ids, and each of them has the includes that it has in
/// `before`, in front of those that it has more.
pub open spec fn grown_from(after: CachedStableGraph, before: CachedStableGraph) -> bool {
    &&& before.paths().len() <= after.paths().len()
    &&& after.paths().take(before.paths().len() as int) == before.paths()
    &&& forall|p: int|
        0 <= p < before.paths().len() ==> before.meta(p).len() <= (#[trigger] after.meta(p)).len()
            && after.meta(p).take(before.meta(p).len() as int) == before.meta(p)
}

/// Whether `graph` holds the file `file` with the includes that its lines
/// `lines` make.
pub open spec fn holds_file(
    graph: CachedStableGraph,
    root: Seq<u8>,
    file: Seq<u8>,
    lines: Seq<Option<Seq<u8>>>,
) -> bool {
    exists|node: int|
        0 <= node < graph.paths().len() && #[trigger] graph.paths()[node] == file && forall|k: int|
            0 <= k < includes_in(root, file, lines).len() ==> graph.meta(node).contains(
                #[trigger] includes_in(root, file, lines)[k],
            )
}

/// A graph that has grown holds the files that it held, with their
/// includes.
pub proof fn lemma_grown_holds(
    after: CachedStableGraph,
    before: CachedStableGraph,
    root: Seq<u8>,
    file: Seq<u8>,
    lines: Seq<Option<Seq<u8>>>,
)
    requires
        grown_from(after, before),
        holds_file(before, root, file, lines),
    ensures
        holds_file(after, root, file, lines),
{
    let found = includes_in(root, file, lines);
    let node = choose|node: int|
        0 <= node < before.paths().len() && #[trigger] before.paths()[node] == file && forall|k: int|
            0 <= k < found.len() ==> before.meta(node).contains(#[trigger] found[k]);
    assert(after.paths().take(before.paths().len() as int)[node] == after.paths()[node]);
    assert(after.meta(node).len() >= before.meta(node).len());
    assert forall|k: int| 0 <= k < found.len() implies after.meta(node).contains(
        #[trigger] found[k],
    ) by {
        let at = choose|at: int| 0 <= at < before.meta(node).len() && before.meta(node)[at] == found[k];
        assert(after.meta(node).take(before.meta(node).len() as int)[at] == after.meta(node)[at]);
    }
}

/// Growth goes on: what has grown from a graph that has grown has grown
/// from the first.
pub proof fn lemma_grown_on(
    last: CachedStableGraph,
    mid: CachedStableGraph,
    first: CachedStableGraph,
)
    requires
        grown_from(last, mid),
        grown_from(mid, first),
    ensures
        grown_from(last, first),
{
    assert(last.paths().take(first.paths().len() as int) =~= first.paths()) by {
        assert forall|i: int| 0 <= i < first.paths().len() implies last.paths()[i]
            == first.paths()[i] by {
            assert(last.paths().take(mid.paths().len() as int)[i] == last.paths()[i]);
            assert(mid.paths().take(first.paths().len() as int)[i] == mid.paths()[i]);
        }
    }
    assert forall|p: int| 0 <= p < first.paths().len() implies first.meta(p).len() <= (
    #[trigger] last.meta(p)).len() && last.meta(p).take(first.meta(p).len() as int) == first.meta(
        p,
    ) by {
        assert(mid.meta(p).len() >= first.meta(p).len());
        assert(last.meta(p).len() >= mid.meta(p).len());
        assert(last.meta(p).take(first.meta(p).len() as int) =~= first.meta(p)) by {
            assert forall|i: int| 0 <= i < first.meta(p).len() implies last.meta(p)[i]
                == first.meta(p)[i] by {
                assert(last.meta(p).take(mid.meta(p).len() as int)[i] == last.meta(p)[i]);
                assert(mid.meta(p).take(first.meta(p).len() as int)[i] == mid.meta(p)[i]);
            }
        }
    }
}

/// Whether `list` holds `entry` in front of the place `upto`.
fn holds_include(list: &Vec<(Vec<u8>, IncludePosition)>, upto: usize, entry: &(
    Vec<u8>,
    IncludePosition,
)) -> (holds: bool)
    requires
        upto <= list.len(),
    ensures
        holds == include_views(list@).take(upto as int).contains((entry.0@, entry.1)),
{
    let ghost views = include_views(list@).take(upto as int);
    let mut i: usize = 0;
    while i < upto
        invariant
            i <= upto <= list.len(),
            views == include_views(list@).take(upto as int),
            forall|j: int| 0 <= j < i ==> views[j] != (entry.0@, entry.1),
        decreases upto - i,
    {
        if list[i].1 == entry.1 && bytes_eq(list[i].0.as_slice(), entry.0.as_slice()) {
            assert(views[i as int] == (entry.0@, entry.1));
            return true;
        }
        i += 1;
    }
    false
}

/// The state of the server: the root of the workspace and the include graph
/// of its files.
pub struct MinecraftShaderLanguageServer {
    pub root: Vec<u8>,
    pub graph: CachedStableGraph,
}

impl MinecraftShaderLanguageServer {
    /// The invariant of the state: that of its graph.
    pub open spec fn wf(&self) -> bool {
        self.graph.wf()
    }

    /// A server for the workspace at `root`, with an empty graph.
    pub fn new(root: &[u8]) -> (server: Self)
        ensures
            server.wf(),
            server.root@ == root@,
            server.graph.paths().len() == 0,
    {
        MinecraftShaderLanguageServer { root: to_vec(root), graph: CachedStableGraph::new() }
    }

    /// The answer to a request that the server does not serve: code 1 and
    /// the message `Functionality not implemented.`, with `data` as it is.
    pub fn error_not_available<DATA>(data: DATA) -> (error: MethodError<DATA>)
        ensures
            error.code == 1,
            error.message@ == "Functionality not implemented."@,
            error.data == data,
    {
        MethodError { code: 1, message: "Functionality not implemented.".to_string(), data }
    }

    /// Whether the server cares for the file at `path`: it lies in the
    /// workspace.
    pub fn is_in_workspace(&self, path: &[u8]) -> (within: bool)
        ensures
            within == is_within(self.root@, path@),
    {
        path_is_within(self.root.as_slice(), path)
    }

    /// The includes that the lines of `file` make, in their order: the path
    /// of each included file and the place of the directive.
    pub fn find_includes(&self, file: &[u8], lines: &Vec<Option<Vec<u8>>>) -> (found: Vec<
        (Vec<u8>, IncludePosition),
    >)
        ensures
            include_views(found@) == includes_in(self.root@, file@, line_views(lines@)),
    {
        scan_includes(self.root.as_slice(), file, lines)
    }

    /// Adds one include of the node `node` to the graph: an edge from
    /// `node` to the node of the included file, which is added where the
    /// graph does not hold it yet.
    pub fn add_include(&mut self, entry: (Vec<u8>, IncludePosition), node: usize)
        requires
            old(self).wf(),
            node < old(self).graph.paths().len(),
        ensures
            final(self).wf(),
            final(self).root == old(self).root,
            final(self).graph.paths() == with_path(old(self).graph.paths(), entry.0@),
            final(self).graph.extends(old(self).graph, node as int),
            final(self).graph.meta(node as int) == old(self).graph.meta(node as int).push(
                (entry.0@, entry.1),
            ),
    {
        let child = self.graph.add_node(entry.0.as_slice());
        let ghost mid = self.graph;
        proof {
            assert(mid.paths().take(old(self).graph.paths().len() as int) =~= old(
                self,
            ).graph.paths());
            lemma_meta_kept(old(self).graph, mid, node as int);
        }
        self.graph.add_edge(node, child, entry.1);
        proof {
            assert(self.graph.meta(node as int) =~= mid.meta(node as int).push(
                (entry.0@, entry.1),
            ));
            assert(self.graph.paths().take(old(self).graph.paths().len() as int)
                =~= old(self).graph.paths());
        }
    }

    /// Adds the file at `path` to the graph, with the includes that its
    /// lines make: a node for the file and for each included file, where
    /// the graph does not hold it yet, and an edge for each include, behind
    /// the edges that the file has already. The result is the file's node.
    pub fn add_file_and_includes_to_graph(
        &mut self,
        path: &[u8],
        lines: &Vec<Option<Vec<u8>>>,
    ) -> (node: usize)
        requires
            old(self).wf(),
        ensures
            final(self).wf(),
            final(self).root == old(self).root,
            node < final(self).graph.paths().len(),
            final(self).graph.paths()[node as int] == path@,
            final(self).graph.paths() == with_paths(
                old(self).graph.paths(),
                seq![path@] + targets(includes_in(old(self).root@, path@, line_views(lines@))),
            ),
            final(self).graph.extends(old(self).graph, node as int),
            final(self).graph.meta(node as int) == old(self).graph.meta(node as int) + includes_in(
                old(self).root@,
                path@,
                line_views(lines@),
            ),
            view_of(final(self).graph) == with_file(
                view_of(old(self).graph),
                path@,
                includes_in(old(self).root@, path@, line_views(lines@)),
            ),
    {
        let includes = self.find_includes(path, lines);
        let ghost found = include_views(includes@);
        let node = self.graph.add_node(path);
        proof {
            let first = seq![path@] + targets(found.take(0));
            assert(first.drop_last() =~= Seq::<Seq<u8>>::empty());
            assert(first.last() == path@);
            assert(with_paths(old(self).graph.paths(), first.drop_last()) == old(
                self,
            ).graph.paths());
            assert(with_paths(old(self).graph.paths(), first) == with_path(
                old(self).graph.paths(),
                path@,
            ));
            assert(self.graph.paths().take(old(self).graph.paths().len() as int)
                =~= old(self).graph.paths());
            lemma_meta_kept(old(self).graph, self.graph, node as int);
            assert(self.graph.meta(node as int) =~= old(self).graph.meta(node as int)
                + found.take(0));
        }
        let mut k: usize = 0;
        while k < includes.len()
            invariant
                self.wf(),
                old(self).wf(),
                self.root == old(self).root,
                found == include_views(includes@),
                k <= includes.len(),
                node < self.graph.paths().len(),
                self.graph.paths()[node as int] == path@,
                self.graph.paths() == with_paths(
                    old(self).graph.paths(),
                    seq![path@] + targets(found.take(k as int)),
                ),
                self.graph.extends(old(self).graph, node as int),
                self.graph.meta(node as int) == old(self).graph.meta(node as int) + found.take(
                    k as int,
                ),
            decreases includes.len() - k,
        {
            let ghost mid = self.graph;
            let entry = (to_vec(includes[k].0.as_slice()), includes[k].1);
            self.add_include(entry, node);
            proof {
                let more = seq![path@] + targets(found.take(k + 1));
                assert(more.drop_last() =~= seq![path@] + targets(found.take(k as int)));
                assert(more.last() == found[k as int].0);
                assert(found.take(k + 1) =~= found.take(k as int).push(found[k as int]));
                assert(self.graph.paths().take(old(self).graph.paths().len() as int)
                    =~= mid.paths().take(old(self).graph.paths().len() as int));
                assert(self.graph.meta(node as int) =~= old(self).graph.meta(node as int)
                    + found.take(k + 1));
                assert forall|p: int|
                    0 <= p < self.graph.paths().len() && p != node implies #[trigger] self.graph.edges_of(
                    p,
                ) == old(self).graph.edges_of(p) by {
                    assert(self.graph.edges_of(p) == mid.edges_of(p));
                    if p < mid.paths().len() {
                        assert(mid.edges_of(p) == old(self).graph.edges_of(p));
                    }
                }
            }
            k += 1;
        }
        assert(found.take(k as int) =~= found);
        proof {
            let before = view_of(old(self).graph);
            let goal = with_file(before, path@, found);
            let now = view_of(self.graph);
            assert forall|p: int| 0 <= p < now.paths.len() implies now.includes[p]
                == goal.includes[p] by {
                if p == node {
                } else {
                    assert(self.graph.paths()[p] != path@);
                    assert(self.graph.edges_of(p) == old(self).graph.edges_of(p));
                    if p < old(self).graph.paths().len() {
                        lemma_meta_kept(old(self).graph, self.graph, p);
                    } else {
                        assert(self.graph.meta(p) =~= Seq::<Include>::empty());
                    }
                }
            }
            assert(now.includes =~= goal.includes);
        }
        node
    }

    /// Brings the edges of the file at `file` up to the includes that its
    /// lines make now. An edge whose include the file makes no more is
    /// removed; an edge whose include it still makes stays in its place; an
    /// edge is added, behind the others, for each include that the file had
    /// not. Two includes are the same where they name the same file at the
    /// same position. Of several edges for the same include one stays. A
    /// file that the graph does not hold changes nothing.
    pub fn update_includes(&mut self, file: &[u8], lines: &Vec<Option<Vec<u8>>>)
        requires
            old(self).wf(),
        ensures
            final(self).wf(),
            final(self).root == old(self).root,
            !old(self).graph.paths().contains(file@) ==> final(self).graph.paths() == old(
                self,
            ).graph.paths() && final(self).graph.edges() == old(self).graph.edges(),
            forall|node: int|
                0 <= node < old(self).graph.paths().len() && old(self).graph.paths()[node] == file@
                    ==> {
                    let had = old(self).graph.meta(node);
                    let now = includes_in(old(self).root@, file@, line_views(lines@));
                    &&& final(self).graph.meta(node) == updated(had, now)
                    &&& final(self).graph.paths() == with_paths(
                        old(self).graph.paths(),
                        targets(new_upto(now, had, now.len() as int)),
                    )
                    &&& final(self).graph.extends(old(self).graph, node)
                },
    {
        let node = match self.graph.find_node(file) {
            None => {
                return ;
            },
            Some(node) => node,
        };
        let includes = self.find_includes(file, lines);
        let listed = self.graph.child_node_meta(node);
        let ghost now = include_views(includes@);
        let ghost had = include_views(listed@);
        let mut k: usize = listed.len();
        assert(had.take(k as int) =~= had);
        assert(had.take(k as int) + kept_from(had, now, k as int) =~= had);
        assert(self.graph.paths().take(self.graph.paths().len() as int) =~= self.graph.paths());
        while k > 0
            invariant
                old(self).wf(),
                self.wf(),
                self.root == old(self).root,
                node < self.graph.paths().len(),
                now == include_views(includes@),
                had == include_views(listed@),
                had == old(self).graph.meta(node as int),
                k <= listed.len(),
                self.graph.paths() == old(self).graph.paths(),
                self.graph.extends(old(self).graph, node as int),
                self.graph.meta(node as int) == had.take(k as int) + kept_from(had, now, k as int),
            decreases k,
        {
            k -= 1;
            let wanted = holds_include(&includes, includes.len(), &listed[k]);
            let earlier = holds_include(&listed, k, &listed[k]);
            proof {
                assert(now.take(includes.len() as int) =~= now);
                assert(had.take(k + 1) =~= had.take(k as int).push(had[k as int]));
            }
            if !(wanted && !earlier) {
                let ghost mid = self.graph;
                let removed = self.graph.remove_edge_at(node, k);
                proof {
                    assert(mid.meta(node as int).len() == mid.edges_of(node as int).len());
                    assert(removed);
                    assert(self.graph.meta(node as int) =~= mid.meta(node as int).remove(k as int));
                    assert(self.graph.meta(node as int) =~= had.take(k as int) + kept_from(
                        had,
                        now,
                        k as int,
                    ));
                    assert(self.graph.paths().take(old(self).graph.paths().len() as int)
                        =~= old(self).graph.paths());
                    assert forall|p: int|
                        0 <= p < self.graph.paths().len() && p != node implies #[trigger] self.graph.edges_of(
                        p,
                    ) == old(self).graph.edges_of(p) by {
                        assert(self.graph.edges_of(p) == mid.edges_of(p));
                    }
                }
            } else {
                assert(self.graph.meta(node as int) =~= had.take(k as int) + kept_from(
                    had,
                    now,
                    k as int,
                ));
            }
        }
        let ghost kept = kept_from(had, now, 0);
        assert(had.take(0) + kept =~= kept);
        let mut k: usize = 0;
        while k < includes.len()
            invariant
                old(self).wf(),
                self.wf(),
                self.root == old(self).root,
                node < old(self).graph.paths().len(),
                now == include_views(includes@),
                had == include_views(listed@),
                kept == kept_from(had, now, 0),
                k <= includes.len(),
                self.graph.paths() == with_paths(
                    old(self).graph.paths(),
                    targets(new_upto(now, had, k as int)),
                ),
                self.graph.extends(old(self).graph, node as int),
                self.graph.meta(node as int) == kept + new_upto(now, had, k as int),
            decreases includes.len() - k,
        {
            let known = holds_include(&listed, listed.len(), &includes[k]);
            let earlier = holds_include(&includes, k, &includes[k]);
            proof {
                assert(had.take(listed.len() as int) =~= had);
            }
            if !known && !earlier {
                let ghost mid = self.graph;
                let entry = (to_vec(includes[k].0.as_slice()), includes[k].1);
                self.add_include(entry, node);
                proof {
                    let fresh = new_upto(now, had, k as int);
                    let more = new_upto(now, had, k + 1);
                    assert(more == fresh.push(now[k as int]));
                    assert(targets(more).drop_last() =~= targets(fresh));
                    assert(targets(more).last() == now[k as int].0);
                    assert(self.graph.meta(node as int) =~= kept + more);
                    assert(self.graph.paths().take(old(self).graph.paths().len() as int)
                        =~= mid.paths().take(old(self).graph.paths().len() as int));
                    assert forall|p: int|
                        0 <= p < self.graph.paths().len() && p != node implies #[trigger] self.graph.edges_of(
                        p,
                    ) == old(self).graph.edges_of(p) by {
                        assert(self.graph.edges_of(p) == mid.edges_of(p));
                        if p < mid.paths().len() {
                            assert(mid.edges_of(p) == old(self).graph.edges_of(p));
                        }
                    }
                }
            }
            k += 1;
        }
    }

    /// Builds the graph of the workspace from the files that the walk over
    /// it found: each file of `files` whose extension is one of `vsh`,
    /// `fsh`, `glsl` and `inc` is added with the includes that its lines
    /// make, in the order of `files`.
    pub fn gen_initial_graph(&mut self, files: &Vec<(Vec<u8>, Vec<Option<Vec<u8>>>)>)
        requires
            old(self).wf(),
        ensures
            final(self).wf(),
            final(self).root == old(self).root,
            view_of(final(self).graph) == with_files(
                view_of(old(self).graph),
                old(self).root@,
                file_views(files@),
            ),
            grown_from(final(self).graph, old(self).graph),
            forall|i: int|
                0 <= i < files.len() && is_seed_path((#[trigger] files[i]).0@) ==> holds_file(
                    final(self).graph,
                    old(self).root@,
                    files[i].0@,
                    line_views(files[i].1@),
                ),
    {
        let mut i: usize = 0;
        proof {
            assert(file_views(files@).take(0) =~= Seq::<
                (Seq<u8>, Seq<Option<Seq<u8>>>),
            >::empty());
            assert(self.graph.paths().take(self.graph.paths().len() as int)
                =~= self.graph.paths());
            assert forall|p: int| 0 <= p < self.graph.paths().len() implies self.graph.meta(
                p,
            ).take(self.graph.meta(p).len() as int) == self.graph.meta(p) by {
                assert(self.graph.meta(p).take(self.graph.meta(p).len() as int)
                    =~= self.graph.meta(p));
            }
        }
        while i < files.len()
            invariant
                old(self).wf(),
                self.wf(),
                self.root == old(self).root,
                i <= files.len(),
                view_of(self.graph) == with_files(
                    view_of(old(self).graph),
                    old(self).root@,
                    file_views(files@).take(i as int),
                ),
                grown_from(self.graph, old(self).graph),
                forall|j: int|
                    0 <= j < i && is_seed_path((#[trigger] files[j]).0@) ==> holds_file(
                        self.graph,
                        old(self).root@,
                        files[j].0@,
                        line_views(files[j].1@),
                    ),
            decreases files.len() - i,
        {
            proof {
                let all = file_views(files@);
                assert(all.take(i + 1).drop_last() =~= all.take(i as int));
                assert(all.take(i + 1).last() == all[i as int]);
            }
            if is_seed_file(files[i].0.as_slice()) {
                let ghost mid = self.graph;
                let node = self.add_file_and_includes_to_graph(files[i].0.as_slice(), &files[i].1);
                proof {
                    let found = includes_in(self.root@, files[i as int].0@, line_views(
                        files[i as int].1@,
                    ));
                    assert forall|p: int| 0 <= p < mid.paths().len() implies mid.meta(p).len() <= (
                    #[trigger] self.graph.meta(p)).len() && self.graph.meta(p).take(
                        mid.meta(p).len() as int,
                    ) == mid.meta(p) by {
                        if p != node {
                            assert(self.graph.edges_of(p) == mid.edges_of(p));
                            lemma_meta_kept(mid, self.graph, p);
                        }
                        assert(self.graph.meta(p).take(mid.meta(p).len() as int) =~= mid.meta(p));
                    }
                    assert(grown_from(self.graph, mid));
                    lemma_grown_on(self.graph, mid, old(self).graph);
                    assert forall|j: int|
                        0 <= j < i && is_seed_path((#[trigger] files[j]).0@) implies holds_file(
                        self.graph,
                        old(self).root@,
                        files[j].0@,
                        line_views(files[j].1@),
                    ) by {
                        lemma_grown_holds(
                            self.graph,
                            mid,
                            old(self).root@,
                            files[j].0@,
                            line_views(files[j].1@),
                        );
                    }
                    assert forall|k: int| 0 <= k < found.len() implies self.graph.meta(
                        node as int,
                    ).contains(#[trigger] found[k]) by {
                        assert(self.graph.meta(node as int)[mid.meta(node as int).len() + k]
                            == found[k]);
                    }
                    assert(self.graph.paths()[node as int] == files[i as int].0@);
                    assert(holds_file(
                        self.graph,
                        old(self).root@,
                        files[i as int].0@,
                        line_views(files[i as int].1@),
                    ));
                }
            }
            i += 1;
        }
        assert(file_views(files@).take(i as int) =~= file_views(files@));
    }

    /// The top-level shaders that include the file at `uri`, themselves or
    /// through other files; `None` where there is none, which is to say
    /// that the file is a top-level file itself. A file that the graph does
    /// not hold makes the error.
    pub fn get_file_toplevel_ancestors(&self, uri: &[u8]) -> (found: Result<
        Option<Vec<usize>>,
        LintError,
    >)
        requires
            self.wf(),
        ensures
            match found {
                Ok(Some(roots)) => exists|node: int|
                    0 <= node < self.graph.paths().len() && #[trigger] self.graph.paths()[node]
                        == uri@ && roots@ == self.graph.root_ancestors(node as usize)
                        && roots.len() > 0,
                Ok(None) => exists|node: int|
                    0 <= node < self.graph.paths().len() && #[trigger] self.graph.paths()[node]
                        == uri@ && self.graph.root_ancestors(node as usize).len() == 0,
                Err(error) => {
                    &&& !self.graph.paths().contains(uri@)
                    &&& error matches LintError::NodeNotFound(path)
                    &&& path@ == uri@
                },
            },
    {
        match self.graph.find_node(uri) {
            None => Err(LintError::NodeNotFound(to_vec(uri))),
            Some(node) => {
                let roots = self.graph.collect_root_ancestors(node);
                assert(self.graph.paths()[node as int] == uri@);
                if roots.len() == 0 {
                    Ok(None)
                } else {
                    Ok(Some(roots))
                }
            },
        }
    }

    /// The plan of the lint of the file at `uri`, see
    /// [`LintPlan::plans`]. A file that the graph does not hold makes the
    /// error.
    pub fn lint(&self, uri: &[u8]) -> (found: Result<LintPlan, LintError>)
        requires
            self.wf(),
        ensures
            match found {
                Ok(plan) => exists|node: int|
                    0 <= node < self.graph.paths().len() && #[trigger] self.graph.paths()[node]
                        == uri@ && plan.plans(self.graph, node as usize),
                Err(error) => {
                    &&& !self.graph.paths().contains(uri@)
                    &&& error matches LintError::NodeNotFound(path)
                    &&& path@ == uri@
                },
            },
    {
        match self.graph.find_node(uri) {
            None => Err(LintError::NodeNotFound(to_vec(uri))),
            Some(node) => {
                let plan = plan_lint(&self.graph, node);
                assert(self.graph.paths()[node as int] == uri@);
                Ok(plan)
            },
        }
    }

    /// A file was opened. A file outside the workspace is left alone, and
    /// the result is `None`. A file that the graph does not hold is added
    /// to it with the includes that its lines `lines` make. The result is
    /// the plan of the file's lint.
    pub fn did_open_text_document(&mut self, path: &[u8], lines: &Vec<Option<Vec<u8>>>) -> (found:
        Option<LintPlan>)
        requires
            old(self).wf(),
        ensures
            final(self).wf(),
            final(self).root == old(self).root,
            !is_within(old(self).root@, path@) ==> found is None && final(self).graph == old(
                self,
            ).graph,
            is_within(old(self).root@, path@) ==> {
                &&& view_of(final(self).graph) == if old(self).graph.paths().contains(path@) {
                    view_of(old(self).graph)
                } else {
                    with_file(
                        view_of(old(self).graph),
                        path@,
                        includes_in(old(self).root@, path@, line_views(lines@)),
                    )
                }
                &&& found matches Some(plan)
                &&& exists|node: int|
                    0 <= node < final(self).graph.paths().len()
                        && #[trigger] final(self).graph.paths()[node] == path@ && plan.plans(
                        final(self).graph,
                        node as usize,
                    )
            },
    {
        if !self.is_in_workspace(path) {
            return None;
        }
        let node = match self.graph.find_node(path) {
            Some(node) => node,
            None => self.add_file_and_includes_to_graph(path, lines),
        };
        let plan = plan_lint(&self.graph, node);
        assert(self.graph.paths()[node as int] == path@);
        Some(plan)
    }

    /// A file was saved. A file outside the workspace is left alone, and
    /// the result is `None`. The edges of the file are brought up to the
    /// includes that its lines `lines` make, see [`Self::update_includes`].
    /// The result is the plan of the file's lint, or the error where the
    /// graph does not hold the file.
    pub fn did_save_text_document(&mut self, path: &[u8], lines: &Vec<Option<Vec<u8>>>) -> (found:
        Option<Result<LintPlan, LintError>>)
        requires
            old(self).wf(),
        ensures
            final(self).wf(),
            final(self).root == old(self).root,
            !is_within(old(self).root@, path@) ==> found is None && final(self).graph == old(
                self,
            ).graph,
            is_within(old(self).root@, path@) ==> found is Some,
            is_within(old(self).root@, path@) && !old(self).graph.paths().contains(path@) ==> {
                &&& final(self).graph.paths() == old(self).graph.paths()
                &&& final(self).graph.edges() == old(self).graph.edges()
                &&& found matches Some(Err(LintError::NodeNotFound(file)))
                &&& file@ == path@
            },
            forall|node: int|
                is_within(old(self).root@, path@) && 0 <= node < old(self).graph.paths().len()
                    && old(self).graph.paths()[node] == path@ ==> {
                    let had = old(self).graph.meta(node);
                    let now = includes_in(old(self).root@, path@, line_views(lines@));
                    &&& final(self).graph.meta(node) == updated(had, now)
                    &&& final(self).graph.paths() == with_paths(
                        old(self).graph.paths(),
                        targets(new_upto(now, had, now.len() as int)),
                    )
                    &&& final(self).graph.extends(old(self).graph, node)
                    &&& found matches Some(Ok(plan))
                    &&& plan.plans(final(self).graph, node as usize)
                },
    {
        if !self.is_in_workspace(path) {
            return None;
        }
        self.update_includes(path, lines);
        match self.graph.find_node(path) {
            None => {
                assert(!old(self).graph.paths().contains(path@)) by {
                    if old(self).graph.paths().contains(path@) {
                        let node = choose|node: int|
                            0 <= node < old(self).graph.paths().len() && old(
                                self,
                            ).graph.paths()[node] == path@;
                        assert(self.graph.paths().take(old(self).graph.paths().len() as int)[node]
                            == self.graph.paths()[node]);
                    }
                }
                Some(Err(LintError::NodeNotFound(to_vec(path))))
            },
            Some(node) => {
                proof {
                    if !old(self).graph.paths().contains(path@) {
                        assert(self.graph.paths()[node as int] == path@);
                    } else {
                        let first = choose|first: int|
                            0 <= first < old(self).graph.paths().len() && old(
                                self,
                            ).graph.paths()[first] == path@;
                        assert(self.graph.paths().take(old(self).graph.paths().len() as int)[first]
                            == self.graph.paths()[first]);
                    }
                }
                Some(Ok(plan_lint(&self.graph, node)))
            },
        }
    }

    /// The links of the file at `path`: one for each of its includes, in
    /// their order, from the place of the directive to the included file.
    /// A file that the graph does not hold has none.
    pub fn document_link(&self, path: &[u8]) -> (links: Vec<DocumentLink>)
        requires
            self.wf(),
        ensures
            !self.graph.paths().contains(path@) ==> links.len() == 0,
            forall|node: int|
                0 <= node < self.graph.paths().len() && self.graph.paths()[node] == path@
                    ==> link_views(links@) == links_of(self.graph.meta(node)),
    {
        let mut links: Vec<DocumentLink> = Vec::new();
        let node = match self.graph.find_node(path) {
            None => {
                return links;
            },
            Some(node) => node,
        };
        let meta = self.graph.child_node_meta(node);
        let ghost list = include_views(meta@);
        let mut k: usize = 0;
        assert(list.take(0) =~= Seq::<Include>::empty());
        assert(link_views(links@) =~= Seq::<DocumentLinkView>::empty());
        while k < meta.len()
            invariant
                k <= meta.len(),
                list == include_views(meta@),
                link_views(links@) == links_of(list.take(k as int)),
            decreases meta.len() - k,
        {
            let ghost had = link_views(links@);
            assert(list.take(k + 1).drop_last() =~= list.take(k as int));
            assert(list.take(k + 1).last() == list[k as int]);
            let at = meta[k].1;
            if at.line <= u32::MAX as usize && at.start <= u32::MAX as usize && at.end
                <= u32::MAX as usize {
                let link = DocumentLink {
                    range: Range {
                        start: Position { line: at.line as u32, character: at.start as u32 },
                        end: Position { line: at.line as u32, character: at.end as u32 },
                    },
                    target: to_vec(meta[k].0.as_slice()),
                };
                links.push(link);
                assert(link_views(links@) =~= had.push(link@));
            }
            k += 1;
        }
        assert(list.take(k as int) =~= list);
        links
    }

    /// The diagnostics of a lint as they are sent to the client: for each
    /// file, in the order in which the result lists them, the file's
    /// diagnostics with the version `document_version`.
    pub fn publish_diagnostic(diagnostics: FileDiagnostics, document_version: Option<i32>) -> (sent:
        Vec<PublishDiagnosticsParams>)
        ensures
            sent.len() == diagnostics.keys().len(),
            forall|i: int|
                0 <= i < sent.len() ==> (#[trigger] sent[i]).path@ == diagnostics.keys()[i]
                    && views(sent[i].diagnostics@) == diagnostics.values()[i] && sent[i].version
                    == document_version,
    {
        let ghost keys = diagnostics.keys();
        let ghost values = diagnostics.values();
        let mut entries = diagnostics.into_entries();
        let mut sent: Vec<PublishDiagnosticsParams> = Vec::new();
        let ghost total = entries.len();
        while entries.len() > 0
            invariant
                total == keys.len(),
                sent.len() + entries.len() == total,
                forall|j: int|
                    0 <= j < entries.len() ==> (#[trigger] entries[j]).0@ == keys[sent.len() + j]
                        && views(entries[j].1@) == values[sent.len() + j],
                forall|i: int|
                    0 <= i < sent.len() ==> (#[trigger] sent[i]).path@ == keys[i] && views(
                        sent[i].diagnostics@,
                    ) == values[i] && sent[i].version == document_version,
            decreases entries.len(),
        {
            let entry = entries.remove(0);
            sent.push(
                PublishDiagnosticsParams {
                    path: entry.0,
                    diagnostics: entry.1,
                    version: document_version,
                },
            );
        }
        sent
    }

    /// The sources of the files of the walk `nodes`, from what was read of
    /// them: each file once, in the order in which the walk first visits
    /// it, with its text in the line ends of Unix. `raw` holds for a path
    /// what was read of the file, and `None` where it could not be read;
    /// the first file of the walk that was not read makes the error.
    pub fn load_sources(&self, nodes: &Vec<Visit>, raw: &Vec<(Vec<u8>, Option<Vec<u8>>)>) -> (found:
        Result<Vec<(usize, Vec<u8>)>, LintError>)
        requires
            self.wf(),
        ensures
            ({
                let reads = with_paths_of(self.graph, with_nodes(Seq::empty(), nodes@));
                match found {
                    Ok(sources) => {
                        &&& read_count(reads, raw_views(raw@)) == reads.len()
                        &&& source_views(sources@) == sources_from(reads, raw_views(raw@))
                    },
                    Err(error) => {
                        &&& 0 <= read_count(reads, raw_views(raw@)) < reads.len()
                        &&& error matches LintError::ReadFailed(path)
                        &&& path@ == reads[read_count(reads, raw_views(raw@))].1
                    },
                }
            }),
    {
        let reads = source_files(&self.graph, nodes);
        let found = load_sources(&reads, raw);
        proof {
            let k = read_count(read_views(reads@), raw_views(raw@));
            if found is Err {
                assert(read_views(reads@)[k].1 == reads[k].1@);
            }
        }
        found
    }

    /// The walk from `root` over the files that it includes, see
    /// [`CachedStableGraph::dfs`].
    pub fn get_dfs_for_node(&self, root: usize) -> (found: Result<Vec<Visit>, CycleError>)
        requires
            self.wf(),
        ensures
            match found {
                Ok(visits) => dfs(self.graph.adjacency(), root) == (visits@, None::<CycleError>),
                Err(cycle) => dfs(self.graph.adjacency(), root).1 == Some(cycle),
            },
    {
        self.graph.dfs(root)
    }
}

} // verus!
