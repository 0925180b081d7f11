//! The lint of a file, in the three steps between which files are read and
//! the driver runs.
//!
//! `plan_lint` finds the shaders to compile for a file and walks over what
//! each of them includes; it names the files to read. `documents` takes
//! what was read and flattens each shader into the text for the driver.
//! `finish` takes what the driver printed and groups the findings by file;
//! every file that a walk visited is listed in the result, with no finding
//! where none is for it.

use crate::consts::SOURCE;
use crate::dfs::{dfs, walk, CycleError, Visit};
use crate::diagnostics::{grouped, parse_validator_stdout, reported};
use crate::graph::{lists_of, CachedStableGraph};
use crate::merge_views::{generate_merge_list, merged, plan_of, source_views, text_of};
use crate::paths::tree_type_of;
use crate::protocol::{
    line_range, whole_line, Diagnostic, DiagnosticSeverity, DiagnosticView, FileDiagnostics,
};
use crate::text::{
    ascii, ascii_bytes, bytes_eq, lists, push_bytes, split_on, to_unix, to_vec, unix_text,
};
use crate::TreeType;
use vstd::prelude::*;

verus! {

/// Why a lint ended without a result.
#[derive(Debug, PartialEq, Eq)]
pub enum LintError {
    /// The graph holds no node for the file at this path.
    NodeNotFound(Vec<u8>),
    /// The file at this path could not be read.
    ReadFailed(Vec<u8>),
}

/// One shader to compile: its node, its kind, if its extension names one,
/// and the walk over the files that it includes.
#[derive(Debug, PartialEq, Eq)]
pub struct Tree {
    pub root: usize,
    pub kind: Option<TreeType>,
    pub visits: Vec<Visit>,
}

/// The plan of a lint.
#[derive(Debug, PartialEq, Eq)]
pub struct LintPlan {
    /// The path of the file that is linted.
    pub trigger: Vec<u8>,
    /// The shaders to compile, in the order of their nodes. Where a walk
    /// met a cycle, these are the shaders in front of it.
    pub trees: Vec<Tree>,
    /// The finding for the cycle that a walk met, if one did.
    pub cycle: Option<Diagnostic>,
    /// The files to read: the nodes that the walks of `trees` visit, each
    /// once, in the order in which they are first visited, with their paths.
    pub reads: Vec<(usize, Vec<u8>)>,
    /// The paths of the files that a walk visited: those of `reads`, and
    /// behind them those that the walk which met a cycle visited before.
    pub touched: Vec<Vec<u8>>,
}

/// The nodes of the shaders to compile for `node`: the top-level shaders
/// that include it, and `node` itself where there is none.
pub open spec fn roots_for(graph: CachedStableGraph, node: usize) -> Seq<usize> {
    if graph.root_ancestors(node).len() == 0 {
        seq![node]
    } else {
        graph.root_ancestors(node)
    }
}

/// The walks from `roots`, one after the other, up to the first that meets
/// a cycle; and of that one the cycle and the visits made before.
pub open spec fn walks(adj: Seq<Seq<usize>>, roots: Seq<usize>) -> (
    Seq<Seq<Visit>>,
    Option<(CycleError, Seq<Visit>)>,
)
    decreases roots.len(),
{
    if roots.len() == 0 {
        (Seq::empty(), None)
    } else {
        let first = dfs(adj, roots[0]);
        match first.1 {
            Some(cycle) => (Seq::empty(), Some((cycle, first.0))),
            None => {
                let rest = walks(adj, roots.skip(1));
                (seq![first.0] + rest.0, rest.1)
            },
        }
    }
}

/// The nodes `seen`, and behind them those of `visits` that are not among
/// them, each once, in the order in which they are first visited.
pub open spec fn with_nodes(seen: Seq<usize>, visits: Seq<Visit>) -> Seq<usize>
    decreases visits.len(),
{
    if visits.len() == 0 {
        seen
    } else {
        let before = with_nodes(seen, visits.drop_last());
        if before.contains(visits.last().0) {
            before
        } else {
            before.push(visits.last().0)
        }
    }
}

/// The nodes that the walks `found` visit, each once, in the order in which
/// they are first visited.
pub open spec fn nodes_of(found: Seq<Seq<Visit>>) -> Seq<usize>
    decreases found.len(),
{
    if found.len() == 0 {
        Seq::empty()
    } else {
        with_nodes(nodes_of(found.drop_last()), found.last())
    }
}

/// The message of the finding for a cycle.
pub open spec fn cycle_message(graph: CachedStableGraph, cycle: CycleError) -> Seq<u8> {
    ascii("include cycle detected: ") + graph.path_of(cycle.0) + ascii(" -> ") + graph.path_of(
        cycle.1,
    )
}

/// The finding for a cycle: an error on the first line of the file that is
/// linted, which names the two files of the edge that closes the cycle.
pub open spec fn cycle_finding(graph: CachedStableGraph, cycle: CycleError) -> DiagnosticView {
    DiagnosticView {
        range: whole_line(0),
        severity: DiagnosticSeverity::Error,
        source: SOURCE@,
        message: cycle_message(graph, cycle),
    }
}

/// What the entries `v` hold.
pub open spec fn read_views(v: Seq<(usize, Vec<u8>)>) -> Seq<(usize, Seq<u8>)> {
    Seq::new(v.len(), |i: int| (v[i].0, v[i].1@))
}

/// The nodes `nodes`, each with its path.
pub open spec fn with_paths_of(graph: CachedStableGraph, nodes: Seq<usize>) -> Seq<
    (usize, Seq<u8>),
> {
    Seq::new(nodes.len(), |i: int| (nodes[i], graph.path_of(nodes[i])))
}

/// The paths of the nodes `nodes`.
pub open spec fn paths_of(graph: CachedStableGraph, nodes: Seq<usize>) -> Seq<Seq<u8>> {
    Seq::new(nodes.len(), |i: int| graph.path_of(nodes[i]))
}

impl LintPlan {
    /// Whether this is the plan of the lint of `node` in `graph`.
    pub open spec fn plans(&self, graph: CachedStableGraph, node: usize) -> bool {
        let roots = roots_for(graph, node);
        let found = walks(graph.adjacency(), roots);
        &&& self.trigger@ == graph.path_of(node)
        &&& self.trees.len() == found.0.len()
        &&& forall|i: int|
            0 <= i < self.trees.len() ==> (#[trigger] self.trees[i]).root == roots[i]
                && self.trees[i].visits@ == found.0[i] && self.trees[i].kind == tree_type_of(
                graph.path_of(roots[i]),
            )
        &&& read_views(self.reads@) == with_paths_of(graph, nodes_of(found.0))
        &&& match found.1 {
            Some((cycle, cut)) => {
                &&& self.cycle matches Some(finding)
                &&& finding@ == cycle_finding(graph, cycle)
                &&& lists(self.touched@) == paths_of(graph, with_nodes(nodes_of(found.0), cut))
            },
            None => {
                &&& self.cycle is None
                &&& lists(self.touched@) == paths_of(graph, nodes_of(found.0))
            },
        }
    }
}

/// The path of `node`; the empty path where `node` is no node.
fn path_or_empty(graph: &CachedStableGraph, node: usize) -> (path: Vec<u8>)
    requires
        graph.wf(),
    ensures
        path@ == graph.path_of(node),
{
    if node < graph.node_count() {
        graph.get_node(node)
    } else {
        Vec::new()
    }
}

/// Adds to `seen` the nodes of `visits` that it does not hold.
fn add_nodes(seen: &mut Vec<usize>, visits: &Vec<Visit>)
    ensures
        final(seen)@ == with_nodes(old(seen)@, visits@),
{
    let mut j: usize = 0;
    assert(visits@.take(0) =~= Seq::<Visit>::empty());
    while j < visits.len()
        invariant
            j <= visits.len(),
            seen@ == with_nodes(old(seen)@, visits@.take(j as int)),
        decreases visits.len() - j,
    {
        assert(visits@.take(j + 1).drop_last() =~= visits@.take(j as int));
        let node = visits[j].0;
        let mut known = false;
        let mut m: usize = 0;
        while m < seen.len() && !known
            invariant
                m <= seen.len(),
                known ==> seen@.contains(node),
                !known ==> forall|q: int| 0 <= q < m ==> seen[q] != node,
            decreases seen.len() - m + (if known { 0int } else { 1int }),
        {
            if seen[m] == node {
                known = true;
            } else {
                m += 1;
            }
        }
        if !known {
            seen.push(node);
        }
        j += 1;
    }
    assert(visits@.take(j as int) =~= visits@);
}

/// The finding for `cycle`, see [`cycle_finding`].
fn cycle_diagnostic(graph: &CachedStableGraph, cycle: CycleError) -> (finding: Diagnostic)
    requires
        graph.wf(),
    ensures
        finding@ == cycle_finding(*graph, cycle),
{
    proof {
        reveal_strlit("include cycle detected: ");
        reveal_strlit(" -> ");
    }
    let mut message = to_vec(ascii_bytes("include cycle detected: "));
    let from = path_or_empty(graph, cycle.0);
    push_bytes(&mut message, from.as_slice());
    push_bytes(&mut message, ascii_bytes(" -> "));
    let to = path_or_empty(graph, cycle.1);
    push_bytes(&mut message, to.as_slice());
    assert(message@ =~= cycle_message(*graph, cycle));
    Diagnostic { range: line_range(0), severity: DiagnosticSeverity::Error, source: SOURCE, message }
}

/// The plan of the lint of `node`: the shaders to compile for it, the walk
/// over the files that each of them includes, and the files to read.
pub fn plan_lint(graph: &CachedStableGraph, node: usize) -> (plan: LintPlan)
    requires
        graph.wf(),
    ensures
        plan.plans(*graph, node),
{
    let up = graph.collect_root_ancestors(node);
    let roots = if up.len() == 0 {
        let mut own: Vec<usize> = Vec::new();
        own.push(node);
        assert(own@ =~= seq![node]);
        own
    } else {
        up
    };
    let adj = graph.adjacency_lists();
    let ghost g = graph.adjacency();
    let ghost all = walks(g, roots@);
    let mut trees: Vec<Tree> = Vec::new();
    let mut seen: Vec<usize> = Vec::new();
    let mut cycle: Option<Diagnostic> = None;
    let mut cut: Vec<Visit> = Vec::new();
    let ghost mut done: Seq<Seq<Visit>> = Seq::empty();
    let mut k: usize = 0;
    assert(roots@.skip(0) =~= roots@);
    loop
        invariant_except_break
            graph.wf(),
            g == graph.adjacency(),
            lists_of(adj@) == g,
            roots@ == roots_for(*graph, node),
            all == walks(g, roots@),
            k <= roots.len(),
            trees.len() == k,
            done.len() == k,
            forall|i: int|
                0 <= i < k ==> (#[trigger] trees[i]).root == roots[i] && trees[i].visits@ == done[i]
                    && trees[i].kind == tree_type_of(graph.path_of(roots[i])),
            seen@ == nodes_of(done),
            cycle is None,
            cut@.len() == 0,
            all.0 == done + walks(g, roots@.skip(k as int)).0,
            all.1 == walks(g, roots@.skip(k as int)).1,
        ensures
            trees.len() == all.0.len(),
            forall|i: int|
                0 <= i < trees.len() ==> (#[trigger] trees[i]).root == roots[i]
                    && trees[i].visits@ == all.0[i] && trees[i].kind == tree_type_of(
                    graph.path_of(roots[i]),
                ),
            seen@ == nodes_of(all.0),
            match all.1 {
                Some((met, visited)) => cycle matches Some(finding) && finding@ == cycle_finding(
                    *graph,
                    met,
                ) && cut@ == visited,
                None => cycle is None && cut@.len() == 0,
            },
        decreases roots.len() - k,
    {
        if k >= roots.len() {
            assert(roots@.skip(k as int).len() == 0);
            assert(all.0 =~= done);
            break ;
        }
        let ghost rest = roots@.skip(k as int);
        assert(rest[0] == roots[k as int]);
        assert(rest.skip(1) =~= roots@.skip(k + 1));
        let (visits, met) = walk(&adj, roots[k]);
        match met {
            Some(met) => {
                cycle = Some(cycle_diagnostic(graph, met));
                cut = visits;
                assert(all.0 =~= done);
                break ;
            },
            None => {
                add_nodes(&mut seen, &visits);
                let path = path_or_empty(graph, roots[k]);
                let kind = TreeType::of_path(path.as_slice());
                proof {
                    let more = done.push(visits@);
                    assert(more.drop_last() =~= done);
                    assert(all.0 =~= more + walks(g, roots@.skip(k + 1)).0);
                    done = more;
                }
                trees.push(Tree { root: roots[k], kind, visits });
            },
        }
        k += 1;
    }
    let mut reads: Vec<(usize, Vec<u8>)> = Vec::new();
    let mut touched: Vec<Vec<u8>> = Vec::new();
    let mut m: usize = 0;
    while m < seen.len()
        invariant
            graph.wf(),
            m <= seen.len(),
            reads.len() == m,
            touched.len() == m,
            forall|q: int|
                0 <= q < m ==> (#[trigger] reads[q]).0 == seen[q] && reads[q].1@ == graph.path_of(
                    seen[q],
                ),
            forall|q: int| 0 <= q < m ==> (#[trigger] touched[q])@ == graph.path_of(seen[q]),
        decreases seen.len() - m,
    {
        let path = path_or_empty(graph, seen[m]);
        touched.push(to_vec(path.as_slice()));
        reads.push((seen[m], path));
        m += 1;
    }
    let ghost read_nodes = seen@;
    add_nodes(&mut seen, &cut);
    proof {
        if cut@.len() == 0 {
            assert(seen@ == read_nodes);
        }
        lemma_with_nodes_extends(read_nodes, cut@);
    }
    while m < seen.len()
        invariant
            graph.wf(),
            read_nodes.len() <= m <= seen.len(),
            touched.len() == m,
            forall|q: int| 0 <= q < m ==> (#[trigger] touched[q])@ == graph.path_of(seen[q]),
        decreases seen.len() - m,
    {
        let path = path_or_empty(graph, seen[m]);
        touched.push(path);
        m += 1;
    }
    let trigger = path_or_empty(graph, node);
    let plan = LintPlan { trigger, trees, cycle, reads, touched };
    proof {
        assert(read_views(plan.reads@) =~= with_paths_of(*graph, nodes_of(all.0)));
        assert(lists(plan.touched@) =~= paths_of(*graph, seen@));
    }
    plan
}

/// The nodes that were seen stay in front when nodes are added.
pub proof fn lemma_with_nodes_extends(seen: Seq<usize>, visits: Seq<Visit>)
    ensures
        seen.len() <= with_nodes(seen, visits).len(),
        with_nodes(seen, visits).take(seen.len() as int) == seen,
        forall|j: int| 0 <= j < visits.len() ==> with_nodes(seen, visits).contains(visits[j].0),
    decreases visits.len(),
{
    if visits.len() == 0 {
        assert(seen.take(seen.len() as int) =~= seen);
    } else {
        let before = with_nodes(seen, visits.drop_last());
        let all = with_nodes(seen, visits);
        lemma_with_nodes_extends(seen, visits.drop_last());
        assert(all.take(seen.len() as int) =~= before.take(seen.len() as int));
        assert forall|j: int| 0 <= j < visits.len() implies all.contains(visits[j].0) by {
            if j < visits.len() - 1 {
                assert(visits.drop_last()[j] == visits[j]);
                let at = choose|at: int| 0 <= at < before.len() && before[at] == visits[j].0;
                assert(all[at] == visits[j].0);
            } else if before.contains(visits.last().0) {
            } else {
                assert(all[before.len() as int] == visits[j].0);
            }
        }
    }
}

/// What was read of the file at `path`: the text of the first entry of
/// `raw` for it; none where the entry has none, and where there is no
/// entry.
pub open spec fn raw_text(raw: Seq<(Seq<u8>, Option<Seq<u8>>)>, path: Seq<u8>) -> Option<Seq<u8>>
    decreases raw.len(),
{
    if raw.len() == 0 {
        None
    } else if raw[0].0 == path {
        raw[0].1
    } else {
        raw_text(raw.skip(1), path)
    }
}

/// What the entries `v` hold.
pub open spec fn raw_views(v: Seq<(Vec<u8>, Option<Vec<u8>>)>) -> Seq<(Seq<u8>, Option<Seq<u8>>)> {
    Seq::new(
        v.len(),
        |i: int|
            (
                v[i].0@,
                match v[i].1 {
                    Some(text) => Some(text@),
                    None => None,
                },
            ),
    )
}

/// The number of files in front of the first of `reads` that was not read;
/// the number of all where each was read.
pub open spec fn read_count(reads: Seq<(usize, Seq<u8>)>, raw: Seq<(Seq<u8>, Option<Seq<u8>>)>) -> int
    decreases reads.len(),
{
    if reads.len() == 0 {
        0
    } else {
        let before = read_count(reads.drop_last(), raw);
        if before == reads.len() - 1 && raw_text(raw, reads.last().1) is Some {
            before + 1
        } else {
            before
        }
    }
}

/// The sources of the files `reads`: of each file the text that was read
/// of it, with the line ends of Unix.
pub open spec fn sources_from(
    reads: Seq<(usize, Seq<u8>)>,
    raw: Seq<(Seq<u8>, Option<Seq<u8>>)>,
) -> Seq<(usize, Seq<u8>)> {
    Seq::new(
        reads.len(),
        |i: int|
            (
                reads[i].0,
                match raw_text(raw, reads[i].1) {
                    Some(text) => unix_text(text),
                    None => Seq::empty(),
                },
            ),
    )
}

/// What the shaders `v` hold.
pub open spec fn tree_views(v: Seq<Tree>) -> Seq<(Option<TreeType>, Seq<Visit>)> {
    Seq::new(v.len(), |i: int| (v[i].kind, v[i].visits@))
}

/// The texts for the driver: for each of `trees` that has a kind, in their
/// order, the kind and the text of the flattened shader.
pub open spec fn documents_of(
    trees: Seq<(Option<TreeType>, Seq<Visit>)>,
    graph: CachedStableGraph,
    sources: Seq<(usize, Seq<u8>)>,
) -> Seq<(TreeType, Seq<u8>)>
    decreases trees.len(),
{
    if trees.len() == 0 {
        Seq::empty()
    } else {
        let before = documents_of(trees.drop_last(), graph, sources);
        match trees.last().0 {
            Some(kind) => before.push(
                (kind, text_of(merged(plan_of(trees.last().1, graph, sources)))),
            ),
            None => before,
        }
    }
}

/// What the documents `v` hold.
pub open spec fn document_views(v: Seq<(TreeType, Vec<u8>)>) -> Seq<(TreeType, Seq<u8>)> {
    Seq::new(v.len(), |i: int| (v[i].0, v[i].1@))
}

/// What was read of the file at `path`, see [`raw_text`].
fn find_raw<'a>(raw: &'a Vec<(Vec<u8>, Option<Vec<u8>>)>, path: &[u8]) -> (found: Option<&'a Vec<u8>>)
    ensures
        match found {
            Some(text) => raw_text(raw_views(raw@), path@) == Some(text@),
            None => raw_text(raw_views(raw@), path@) is None,
        },
{
    let ghost all = raw_views(raw@);
    let mut i: usize = 0;
    assert(all.skip(0) =~= all);
    while i < raw.len()
        invariant
            i <= raw.len(),
            all == raw_views(raw@),
            raw_text(all, path@) == raw_text(all.skip(i as int), path@),
        decreases raw.len() - i,
    {
        assert(all.skip(i as int)[0] == all[i as int]);
        if bytes_eq(raw[i].0.as_slice(), path) {
            return match &raw[i].1 {
                Some(text) => Some(text),
                None => None,
            };
        }
        assert(all.skip(i as int).skip(1) =~= all.skip(i + 1));
        i += 1;
    }
    None
}

/// The sources of the files `reads`, from what was read of them: of each
/// file the text with the line ends of Unix. `raw` holds for a path what
/// was read of the file, and `None` where it could not be read. The first
/// file that was not read makes the error.
pub fn load_sources(reads: &Vec<(usize, Vec<u8>)>, raw: &Vec<(Vec<u8>, Option<Vec<u8>>)>) -> (found:
    Result<Vec<(usize, Vec<u8>)>, LintError>)
    ensures
        match found {
            Ok(sources) => {
                &&& read_count(read_views(reads@), raw_views(raw@)) == reads.len()
                &&& source_views(sources@) == sources_from(read_views(reads@), raw_views(raw@))
            },
            Err(error) => {
                &&& 0 <= read_count(read_views(reads@), raw_views(raw@)) < reads.len()
                &&& error matches LintError::ReadFailed(path)
                &&& path@ == reads[read_count(read_views(reads@), raw_views(raw@))].1@
            },
        },
{
    let ghost all = read_views(reads@);
    let ghost given = raw_views(raw@);
    let mut sources: Vec<(usize, Vec<u8>)> = Vec::new();
    let mut i: usize = 0;
    assert(all.take(0) =~= Seq::<(usize, Seq<u8>)>::empty());
    assert(source_views(sources@) =~= sources_from(all.take(0), given));
    while i < reads.len()
        invariant
            i <= reads.len(),
            all == read_views(reads@),
            given == raw_views(raw@),
            read_count(all.take(i as int), given) == i,
            source_views(sources@) == sources_from(all.take(i as int), given),
        decreases reads.len() - i,
    {
        let ghost had = source_views(sources@);
        assert(all.take(i + 1).drop_last() =~= all.take(i as int));
        assert(all.take(i + 1).last() == all[i as int]);
        match find_raw(raw, reads[i].1.as_slice()) {
            Some(text) => {
                let source = to_unix(text.as_slice());
                sources.push((reads[i].0, source));
                proof {
                    let entry = (all[i as int].0, unix_text(text@));
                    assert(raw_text(given, all[i as int].1) == Some(text@));
                    assert(source_views(sources@) =~= had.push(entry));
                    assert(sources_from(all.take(i + 1), given) =~= sources_from(
                        all.take(i as int),
                        given,
                    ).push(entry));
                }
            },
            None => {
                proof {
                    lemma_read_count_stops(all, given, i as int);
                }
                return Err(LintError::ReadFailed(to_vec(reads[i].1.as_slice())));
            },
        }
        i += 1;
    }
    assert(all.take(i as int) =~= all);
    Ok(sources)
}

/// The files to read for the walk `nodes`: its nodes, each once, in the
/// order in which they are first visited, with their paths.
pub fn source_files(graph: &CachedStableGraph, nodes: &Vec<Visit>) -> (reads: Vec<(usize, Vec<u8>)>)
    requires
        graph.wf(),
    ensures
        read_views(reads@) == with_paths_of(*graph, with_nodes(Seq::empty(), nodes@)),
{
    let mut seen: Vec<usize> = Vec::new();
    add_nodes(&mut seen, nodes);
    let mut reads: Vec<(usize, Vec<u8>)> = Vec::new();
    let mut m: usize = 0;
    while m < seen.len()
        invariant
            graph.wf(),
            m <= seen.len(),
            reads.len() == m,
            forall|q: int|
                0 <= q < m ==> (#[trigger] reads[q]).0 == seen[q] && reads[q].1@ == graph.path_of(
                    seen[q],
                ),
        decreases seen.len() - m,
    {
        let path = path_or_empty(graph, seen[m]);
        reads.push((seen[m], path));
        m += 1;
    }
    assert(read_views(reads@) =~= with_paths_of(*graph, seen@));
    reads
}

impl LintPlan {
    /// The texts for the driver, from what was read of the files `reads`:
    /// for each shader that has a kind the text of the flattened shader,
    /// and none where a walk met a cycle. `raw` holds for a path what was
    /// read of the file, and `None` where it could not be read. The lint
    /// fails with the first file of `reads` that was not read.
    pub fn documents(
        &self,
        raw: &Vec<(Vec<u8>, Option<Vec<u8>>)>,
        graph: &CachedStableGraph,
    ) -> (found: Result<Vec<(TreeType, Vec<u8>)>, LintError>)
        requires
            graph.wf(),
        ensures
            match found {
                Ok(texts) => {
                    &&& read_count(read_views(self.reads@), raw_views(raw@)) == self.reads.len()
                    &&& document_views(texts@) == if self.cycle is Some {
                        Seq::empty()
                    } else {
                        documents_of(
                            tree_views(self.trees@),
                            *graph,
                            sources_from(read_views(self.reads@), raw_views(raw@)),
                        )
                    }
                },
                Err(error) => {
                    &&& 0 <= read_count(read_views(self.reads@), raw_views(raw@)) < self.reads.len()
                    &&& error matches LintError::ReadFailed(path)
                    &&& path@ == self.reads[read_count(
                        read_views(self.reads@),
                        raw_views(raw@),
                    )].1@
                },
            },
    {
        let ghost reads = read_views(self.reads@);
        let ghost given = raw_views(raw@);
        let sources = match load_sources(&self.reads, raw) {
            Ok(sources) => sources,
            Err(error) => {
                return Err(error);
            },
        };
        let mut texts: Vec<(TreeType, Vec<u8>)> = Vec::new();
        if self.cycle.is_some() {
            assert(document_views(texts@) =~= Seq::<(TreeType, Seq<u8>)>::empty());
            return Ok(texts);
        }
        let ghost trees = tree_views(self.trees@);
        let mut k: usize = 0;
        assert(trees.take(0) =~= Seq::<(Option<TreeType>, Seq<Visit>)>::empty());
        assert(document_views(texts@) =~= Seq::<(TreeType, Seq<u8>)>::empty());
        while k < self.trees.len()
            invariant
                graph.wf(),
                k <= self.trees.len(),
                trees == tree_views(self.trees@),
                source_views(sources@) == sources_from(reads, given),
                document_views(texts@) == documents_of(
                    trees.take(k as int),
                    *graph,
                    sources_from(reads, given),
                ),
            decreases self.trees.len() - k,
        {
            let ghost had = document_views(texts@);
            assert(trees.take(k + 1).drop_last() =~= trees.take(k as int));
            assert(trees.take(k + 1).last() == trees[k as int]);
            match self.trees[k].kind {
                Some(kind) => {
                    let document = generate_merge_list(&self.trees[k].visits, &sources, graph);
                    let text = document.text();
                    texts.push((kind, text));
                    assert(document_views(texts@) =~= had.push((kind, text@)));
                },
                None => {},
            }
            k += 1;
        }
        assert(trees.take(k as int) =~= trees);
        Ok(texts)
    }
}

/// The count of the files that were read stops at the first that was not.
pub proof fn lemma_read_count_stops(
    reads: Seq<(usize, Seq<u8>)>,
    raw: Seq<(Seq<u8>, Option<Seq<u8>>)>,
    i: int,
)
    requires
        0 <= i < reads.len(),
        read_count(reads.take(i), raw) == i,
        raw_text(raw, reads[i].1) is None,
    ensures
        read_count(reads, raw) == i,
    decreases reads.len() - i,
{
    lemma_read_count_from(reads, raw, i, reads.len() as int);
    assert(reads.take(reads.len() as int) =~= reads);
}

/// The count of the files that were read stops at the first that was not.
proof fn lemma_read_count_from(
    reads: Seq<(usize, Seq<u8>)>,
    raw: Seq<(Seq<u8>, Option<Seq<u8>>)>,
    i: int,
    n: int,
)
    requires
        0 <= i < n <= reads.len(),
        read_count(reads.take(i), raw) == i,
        raw_text(raw, reads[i].1) is None,
    ensures
        read_count(reads.take(n), raw) == i,
    decreases n,
{
    assert(reads.take(n).drop_last() =~= reads.take(n - 1));
    assert(reads.take(n).last() == reads[n - 1]);
    if n - 1 > i {
        lemma_read_count_from(reads, raw, i, n - 1);
    }
}

/// The findings of the driver's outputs `outputs`, by file: those of each
/// output that there is, where for a file those of a later output stand in
/// place of those of an earlier one.
pub open spec fn collected(outputs: Seq<Option<Seq<u8>>>, trigger: Seq<u8>) -> Map<
    Seq<u8>,
    Seq<DiagnosticView>,
>
    decreases outputs.len(),
{
    if outputs.len() == 0 {
        Map::empty()
    } else {
        let before = collected(outputs.drop_last(), trigger);
        match outputs.last() {
            Some(stdout) => before.union_prefer_right(
                grouped(reported(split_on(stdout, 10), trigger)),
            ),
            None => before,
        }
    }
}

/// The findings `found`, and each of `files` that they do not list, with
/// no finding.
pub open spec fn back_filled(found: Map<Seq<u8>, Seq<DiagnosticView>>, files: Seq<Seq<u8>>) -> Map<
    Seq<u8>,
    Seq<DiagnosticView>,
>
    decreases files.len(),
{
    if files.len() == 0 {
        found
    } else {
        let before = back_filled(found, files.drop_last());
        if before.contains_key(files.last()) {
            before
        } else {
            before.insert(files.last(), Seq::empty())
        }
    }
}

/// The result of a lint: the finding for the cycle on the linted file
/// where a walk met one, else the findings of the driver; and every file
/// that a walk visited, with no finding where none is for it.
pub open spec fn lint_result(
    trigger: Seq<u8>,
    cycle: Option<DiagnosticView>,
    touched: Seq<Seq<u8>>,
    outputs: Seq<Option<Seq<u8>>>,
) -> Map<Seq<u8>, Seq<DiagnosticView>> {
    back_filled(
        match cycle {
            Some(finding) => Map::empty().insert(trigger, seq![finding]),
            None => collected(outputs, trigger),
        },
        touched,
    )
}

/// What the outputs `v` hold.
pub open spec fn output_views(v: Seq<Option<Vec<u8>>>) -> Seq<Option<Seq<u8>>> {
    Seq::new(
        v.len(),
        |i: int|
            match v[i] {
                Some(text) => Some(text@),
                None => None,
            },
    )
}

/// Every file of `files` is listed in the back-filled findings, and the
/// findings that were there stay.
pub proof fn lemma_back_filled(found: Map<Seq<u8>, Seq<DiagnosticView>>, files: Seq<Seq<u8>>)
    ensures
        forall|i: int| 0 <= i < files.len() ==> back_filled(found, files).contains_key(files[i]),
        forall|path: Seq<u8>|
            #![trigger back_filled(found, files).contains_key(path)]
            found.contains_key(path) ==> back_filled(found, files).contains_key(path)
                && back_filled(found, files)[path] == found[path],
        forall|path: Seq<u8>|
            #![trigger back_filled(found, files).contains_key(path)]
            back_filled(found, files).contains_key(path) && !found.contains_key(path)
                ==> back_filled(found, files)[path] == Seq::<DiagnosticView>::empty()
                && files.contains(path),
    decreases files.len(),
{
    if files.len() > 0 {
        lemma_back_filled(found, files.drop_last());
        let before = back_filled(found, files.drop_last());
        assert forall|i: int| 0 <= i < files.len() implies back_filled(
            found,
            files,
        ).contains_key(files[i]) by {
            if i < files.len() - 1 {
                assert(files.drop_last()[i] == files[i]);
            }
        }
        let all = back_filled(found, files);
        assert forall|path: Seq<u8>| found.contains_key(path) implies all.contains_key(path)
            && all[path] == found[path] by {
            assert(before.contains_key(path) && before[path] == found[path]);
        }
        assert forall|path: Seq<u8>|
            all.contains_key(path) && !found.contains_key(path) implies all[path] == Seq::<
            DiagnosticView,
        >::empty() && files.contains(path) by {
            if before.contains_key(path) {
                assert(before[path] == Seq::<DiagnosticView>::empty() && files.drop_last().contains(
                    path,
                ));
                let i = choose|i: int|
                    0 <= i < files.drop_last().len() && files.drop_last()[i] == path;
                assert(files[i] == path);
            } else {
                assert(files[files.len() - 1] == path);
            }
        }
    }
}

/// Every node that one of the walks visits is among their nodes.
pub proof fn lemma_nodes_of_holds(found: Seq<Seq<Visit>>, i: int, j: int)
    requires
        0 <= i < found.len(),
        0 <= j < found[i].len(),
    ensures
        nodes_of(found).contains(found[i][j].0),
    decreases found.len(),
{
    let before = nodes_of(found.drop_last());
    lemma_with_nodes_extends(before, found.last());
    if i < found.len() - 1 {
        lemma_nodes_of_holds(found.drop_last(), i, j);
        assert(found.drop_last()[i] == found[i]);
        let at = choose|at: int| 0 <= at < before.len() && before[at] == found[i][j].0;
        assert(nodes_of(found).take(before.len() as int)[at] == nodes_of(found)[at]);
    }
}

/// Whether a walk of the lint of `node` visits the node `x`: one of the
/// walks from the shaders to compile, or the walk that met a cycle, before
/// it met it.
pub open spec fn is_visited(graph: CachedStableGraph, node: usize, x: usize) -> bool {
    let found = walks(graph.adjacency(), roots_for(graph, node));
    ||| exists|i: int, j: int|
        0 <= i < found.0.len() && 0 <= j < found.0[i].len() && found.0[i][j].0 == x
    ||| found.1 matches Some((_, cut)) && exists|j: int| 0 <= j < cut.len() && cut[j].0 == x
}

/// The result of a lint lists every file that a walk of the lint
/// visited, whatever the driver printed.
pub proof fn lemma_result_lists_visited(
    plan: LintPlan,
    graph: CachedStableGraph,
    node: usize,
    outputs: Seq<Option<Seq<u8>>>,
    x: usize,
)
    requires
        plan.plans(graph, node),
        is_visited(graph, node, x),
    ensures
        lint_result(
            plan.trigger@,
            match plan.cycle {
                Some(finding) => Some(finding@),
                None => None,
            },
            lists(plan.touched@),
            outputs,
        ).contains_key(graph.path_of(x)),
{
    let found = walks(graph.adjacency(), roots_for(graph, node));
    let read = nodes_of(found.0);
    let all = match found.1 {
        Some((_, cut)) => with_nodes(read, cut),
        None => read,
    };
    assert(lists(plan.touched@) == paths_of(graph, all));
    assert(all.contains(x)) by {
        if exists|i: int, j: int|
            0 <= i < found.0.len() && 0 <= j < found.0[i].len() && found.0[i][j].0 == x {
            let (i, j) = choose|i: int, j: int|
                0 <= i < found.0.len() && 0 <= j < found.0[i].len() && found.0[i][j].0 == x;
            lemma_nodes_of_holds(found.0, i, j);
            match found.1 {
                Some((_, cut)) => {
                    lemma_with_nodes_extends(read, cut);
                    let at = choose|at: int| 0 <= at < read.len() && read[at] == x;
                    assert(all.take(read.len() as int)[at] == all[at]);
                },
                None => {},
            }
        } else {
            let cut = found.1.unwrap().1;
            lemma_with_nodes_extends(read, cut);
        }
    }
    let at = choose|at: int| 0 <= at < all.len() && all[at] == x;
    let files = lists(plan.touched@);
    assert(files[at] == graph.path_of(x));
    let base = match plan.cycle {
        Some(finding) => Map::<Seq<u8>, Seq<DiagnosticView>>::empty().insert(
            plan.trigger@,
            seq![finding@],
        ),
        None => collected(outputs, plan.trigger@),
    };
    lemma_back_filled(base, files);
}

impl LintPlan {
    /// The result of the lint, from what the driver printed: `outputs`
    /// holds, for each text of `documents` in their order, the driver's
    /// output, and `None` where the driver did not run.
    ///
    /// Where a walk met a cycle, the result holds the finding for it on
    /// the linted file and no other finding. Every file that a walk
    /// visited is listed in the result.
    pub fn finish(self, outputs: &Vec<Option<Vec<u8>>>) -> (found: FileDiagnostics)
        ensures
            found.wf(),
            found@ == lint_result(
                self.trigger@,
                match self.cycle {
                    Some(finding) => Some(finding@),
                    None => None,
                },
                lists(self.touched@),
                output_views(outputs@),
            ),
            forall|i: int| 0 <= i < self.touched.len() ==> found@.contains_key(self.touched[i]@),
    {
        let ghost given = output_views(outputs@);
        let ghost files = lists(self.touched@);
        let trigger = self.trigger;
        let touched = self.touched;
        let mut found = FileDiagnostics::new();
        match self.cycle {
            Some(finding) => {
                let mut list: Vec<Diagnostic> = Vec::new();
                let ghost view = finding@;
                list.push(finding);
                assert(crate::protocol::views(list@) =~= seq![view]);
                found.insert(trigger.as_slice(), list);
            },
            None => {
                let mut k: usize = 0;
                assert(given.take(0) =~= Seq::<Option<Seq<u8>>>::empty());
                while k < outputs.len()
                    invariant
                        k <= outputs.len(),
                        given == output_views(outputs@),
                        found.wf(),
                        found@ == collected(given.take(k as int), trigger@),
                    decreases outputs.len() - k,
                {
                    assert(given.take(k + 1).drop_last() =~= given.take(k as int));
                    assert(given.take(k + 1).last() == given[k as int]);
                    match &outputs[k] {
                        Some(stdout) => {
                            let parsed = parse_validator_stdout(
                                trigger.as_slice(),
                                stdout.as_slice(),
                            );
                            found.absorb(parsed);
                        },
                        None => {},
                    }
                    k += 1;
                }
                assert(given.take(k as int) =~= given);
            },
        }
        let ghost base = found@;
        let mut m: usize = 0;
        assert(files.take(0) =~= Seq::<Seq<u8>>::empty());
        while m < touched.len()
            invariant
                m <= touched.len(),
                files == lists(touched@),
                found.wf(),
                found@ == back_filled(base, files.take(m as int)),
            decreases touched.len() - m,
        {
            assert(files.take(m + 1).drop_last() =~= files.take(m as int));
            assert(files.take(m + 1).last() == touched[m as int]@);
            found.touch(touched[m].as_slice());
            m += 1;
        }
        proof {
            assert(files.take(m as int) =~= files);
            lemma_back_filled(base, files);
            assert forall|i: int| 0 <= i < touched.len() implies found@.contains_key(
                touched[i]@,
            ) by {
                assert(files[i] == touched[i]@);
            }
        }
        found
    }
}

} // verus!
