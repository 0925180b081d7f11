//! The engine that flattens a shader and the files that it includes into
//! one document for the driver.
//!
//! The document holds the lines of the root file; in place of the line of
//! an include directive stand the lines of the included file, flattened in
//! the same way, between two `#line` directives: one in front, which names
//! the included file, and one behind, which names the including file again
//! and the number of its next line. A file is named by its marker, a small
//! number: the files of a walk are numbered in the order in which the walk
//! first visits them, the root is 0. A file that is included twice stands
//! in the document twice. Of every line the document records whether it is
//! a `#line` directive that the engine put in, or from which line of which
//! file it comes.
//!
//! Lines that ask for the include extension of the compiler are left out.
//! No `#line` directive stands in front of the `#version` line of the root:
//! those that would are left out.

use crate::dfs::Visit;
use crate::graph::CachedStableGraph;
use crate::text::{
    ascii, ascii_bytes, byte_is_digit, decimal, holds_at, is_digit, lines, lines_of, lists,
    matches_at, push_bytes, push_decimal, to_vec,
};
use vstd::prelude::*;

verus! {

/// Whether `line` holds, from the place `at` on, `#version `, and three
/// digits behind it.
pub open spec fn version_at(line: Seq<u8>, at: int) -> bool {
    &&& matches_at(line, at, ascii("#version "))
    &&& at + 12 <= line.len()
    &&& is_digit(line[at + 9])
    &&& is_digit(line[at + 10])
    &&& is_digit(line[at + 11])
}

/// Whether `line` holds a version directive.
pub open spec fn is_version_line(line: Seq<u8>) -> bool {
    exists|at: int| version_at(line, at)
}

/// Whether `line` holds, from the place `at` on, the request for the
/// include extension: `#extension GL_GOOGLE_include_directive`, a colon,
/// which may stand between two blanks, and `require`.
pub open spec fn extension_at(line: Seq<u8>, at: int) -> bool {
    let name = at + ascii("#extension GL_GOOGLE_include_directive").len();
    let colon = if name < line.len() && line[name] == ' ' as u8 {
        name + 1
    } else {
        name
    };
    let word = if colon + 1 < line.len() && line[colon + 1] == ' ' as u8 {
        colon + 2
    } else {
        colon + 1
    };
    &&& matches_at(line, at, ascii("#extension GL_GOOGLE_include_directive"))
    &&& colon < line.len()
    &&& line[colon] == ':' as u8
    &&& matches_at(line, word, ascii("require"))
}

/// Whether `line` asks for the include extension.
pub open spec fn is_extension_line(line: Seq<u8>) -> bool {
    exists|at: int| extension_at(line, at)
}

/// Whether `line` holds a version directive.
pub fn has_version(line: &[u8]) -> (holds: bool)
    ensures
        holds == is_version_line(line@),
{
    proof {
        reveal_strlit("#version ");
    }
    let pattern = ascii_bytes("#version ");
    let mut at: usize = 0;
    while at < line.len()
        invariant
            pattern@ == ascii("#version "),
            pattern@.len() == 9,
            forall|j: int| 0 <= j < at ==> !version_at(line@, j),
        decreases line.len() - at,
    {
        if holds_at(line, at, pattern) && line.len() - at >= 12 && byte_is_digit(line[at + 9])
            && byte_is_digit(line[at + 10]) && byte_is_digit(line[at + 11]) {
            assert(version_at(line@, at as int));
            return true;
        }
        at += 1;
    }
    assert(forall|j: int| !version_at(line@, j));
    false
}

/// Whether `line` asks for the include extension.
pub fn has_extension(line: &[u8]) -> (holds: bool)
    ensures
        holds == is_extension_line(line@),
{
    proof {
        reveal_strlit("#extension GL_GOOGLE_include_directive");
        reveal_strlit("require");
    }
    let pattern = ascii_bytes("#extension GL_GOOGLE_include_directive");
    let require = ascii_bytes("require");
    let mut at: usize = 0;
    while at < line.len()
        invariant
            pattern@ == ascii("#extension GL_GOOGLE_include_directive"),
            pattern@.len() == 38,
            require@ == ascii("require"),
            forall|j: int| 0 <= j < at ==> !extension_at(line@, j),
        decreases line.len() - at,
    {
        if holds_at(line, at, pattern) {
            let name = at + 38;
            let colon = if name < line.len() && line[name] == ' ' as u8 {
                name + 1
            } else {
                name
            };
            if colon < line.len() && line[colon] == ':' as u8 {
                let word = if colon + 1 < line.len() && line[colon + 1] == ' ' as u8 {
                    colon + 2
                } else {
                    colon + 1
                };
                if holds_at(line, word, require) {
                    assert(extension_at(line@, at as int));
                    return true;
                }
            }
        }
        at += 1;
    }
    assert(forall|j: int| !extension_at(line@, j));
    false
}

/// One line of a flattened document. `origin` is the node and the line,
/// counted from zero, from which the line comes; a `#line` directive that
/// the engine put in has none.
#[derive(Debug, PartialEq, Eq)]
pub struct MergedLine {
    pub text: Vec<u8>,
    pub origin: Option<(usize, usize)>,
}

/// What a `MergedLine` holds.
pub struct MergedLineView {
    pub text: Seq<u8>,
    pub origin: Option<(usize, int)>,
}

impl View for MergedLine {
    type V = MergedLineView;

    open spec fn view(&self) -> MergedLineView {
        MergedLineView {
            text: self.text@,
            origin: match self.origin {
                Some((node, line)) => Some((node, line as int)),
                None => None,
            },
        }
    }
}

/// What the lines `v` hold.
pub open spec fn line_views(v: Seq<MergedLine>) -> Seq<MergedLineView> {
    Seq::new(v.len(), |i: int| v[i]@)
}

/// The text of the directive that sets the number of the next line to
/// `number` and names the file with the marker `marker`.
pub open spec fn directive_text(number: nat, marker: nat) -> Seq<u8> {
    ascii("#line ") + decimal(number) + seq![' ' as u8] + decimal(marker)
}

/// The directive that sets the number of the next line to `number` and
/// names the file with the marker `marker`.
pub open spec fn directive(number: nat, marker: nat) -> MergedLineView {
    MergedLineView { text: directive_text(number, marker), origin: None }
}

/// The directive that sets the number of the next line to `number` and
/// names the file with the marker `marker`.
pub fn make_directive(number: u128, marker: usize) -> (line: MergedLine)
    ensures
        line@ == directive(number as nat, marker as nat),
{
    proof {
        reveal_strlit("#line ");
    }
    let mut text = to_vec(ascii_bytes("#line "));
    push_decimal(&mut text, number);
    text.push(' ' as u8);
    push_decimal(&mut text, marker as u128);
    assert(text@ =~= directive_text(number as nat, marker as nat));
    MergedLine { text, origin: None }
}

/// What a walk needs to be flattened.
pub struct Plan {
    /// The visits of the walk.
    pub visits: Seq<Visit>,
    /// For each visit, the line of the directive that includes the visited
    /// file in the file that the walk came from; `usize::MAX` where the
    /// graph has no edge between the two.
    pub at: Seq<usize>,
    /// For each visit, the marker of the visited node.
    pub marker: Seq<usize>,
    /// For each marker, the node.
    pub markers: Seq<usize>,
    /// For each marker, the lines of the node's source.
    pub lines: Seq<Seq<Seq<u8>>>,
}

/// What a walk needs to be flattened.
pub struct MergePlan {
    pub visits: Vec<Visit>,
    pub at: Vec<usize>,
    pub marker: Vec<usize>,
    pub markers: Vec<usize>,
    pub lines: Vec<Vec<Vec<u8>>>,
}

impl View for MergePlan {
    type V = Plan;

    open spec fn view(&self) -> Plan {
        Plan {
            visits: self.visits@,
            at: self.at@,
            marker: self.marker@,
            markers: self.markers@,
            lines: Seq::new(self.lines.len() as nat, |m: int| lists(self.lines[m]@)),
        }
    }
}

impl Plan {
    /// Whether the parts of the plan fit together.
    pub open spec fn wf(self) -> bool {
        &&& self.at.len() == self.visits.len()
        &&& self.marker.len() == self.visits.len()
        &&& self.lines.len() == self.markers.len()
        &&& forall|j: int|
            0 <= j < self.visits.len() ==> (#[trigger] self.marker[j]) < self.markers.len()
                && self.markers[self.marker[j] as int] == self.visits[j].0
    }

    /// The lines of the file that the visit `i` visits.
    pub open spec fn lines_at(self, i: int) -> Seq<Seq<u8>> {
        self.lines[self.marker[i] as int]
    }
}

/// The nodes of the visits `visits`, each once, in the order in which they
/// are first visited.
pub open spec fn distinct_nodes(visits: Seq<Visit>) -> Seq<usize>
    decreases visits.len(),
{
    if visits.len() == 0 {
        Seq::empty()
    } else {
        let before = distinct_nodes(visits.drop_last());
        if before.contains(visits.last().0) {
            before
        } else {
            before.push(visits.last().0)
        }
    }
}

/// The source of `node` among `sources`: that of the first entry for it,
/// and the empty text where there is none.
pub open spec fn source_of(sources: Seq<(usize, Seq<u8>)>, node: usize) -> Seq<u8>
    decreases sources.len(),
{
    if sources.len() == 0 {
        Seq::empty()
    } else if sources[0].0 == node {
        sources[0].1
    } else {
        source_of(sources.skip(1), node)
    }
}

/// What the sources `v` hold.
pub open spec fn source_views(v: Seq<(usize, Vec<u8>)>) -> Seq<(usize, Seq<u8>)> {
    Seq::new(v.len(), |i: int| (v[i].0, v[i].1@))
}

/// The line of the directive that includes the file of `visit` in the file
/// that the walk came from, and `usize::MAX` where the graph has no edge
/// between the two or the walk came from no file.
pub open spec fn include_line(graph: CachedStableGraph, visit: Visit) -> usize {
    match visit.1 {
        Some(parent) => match graph.first_meta(parent as int, visit.0) {
            Some(position) => position.line,
            None => usize::MAX,
        },
        None => usize::MAX,
    }
}

/// The plan for the walk `visits` over `graph`, with the sources `sources`.
pub open spec fn plan_of(
    visits: Seq<Visit>,
    graph: CachedStableGraph,
    sources: Seq<(usize, Seq<u8>)>,
) -> Plan {
    let markers = distinct_nodes(visits);
    Plan {
        visits,
        at: Seq::new(visits.len(), |j: int| include_line(graph, visits[j])),
        marker: Seq::new(visits.len(), |j: int| markers.index_of(visits[j].0) as usize),
        markers,
        lines: Seq::new(markers.len(), |m: int| lines_of(source_of(sources, markers[m]))),
    }
}

/// The lines `lines` of `node` from the place `from` up to the place `to`,
/// each with its origin, without those that ask for the include extension.
pub open spec fn own_lines(lines: Seq<Seq<u8>>, node: usize, from: int, to: int) -> Seq<
    MergedLineView,
>
    decreases to - from,
{
    if to <= from || from < 0 || to > lines.len() {
        Seq::empty()
    } else {
        let before = own_lines(lines, node, from, to - 1);
        if is_extension_line(lines[to - 1]) {
            before
        } else {
            before.push(MergedLineView { text: lines[to - 1], origin: Some((node, to - 1)) })
        }
    }
}

/// `line`, where it lies between `low` and `high`, and else the nearer of
/// the two.
pub open spec fn clamped(line: int, low: int, high: int) -> int {
    if line < low {
        low
    } else if line > high {
        high
    } else {
        line
    }
}

/// The lines of the file of the visit `i` from its line `cursor` on, in
/// which the files of the visits from `j` on that came from that file are
/// flattened; and the place of the first visit that is not among them.
///
/// The visit `j` came from the file where it names the file's node as the
/// one that the walk came from. Its file stands in place of the line of
/// its include directive, or, where that line lies in front of `cursor` or
/// behind the file's end, at the nearer of the two.
pub open spec fn flattened(plan: Plan, i: int, j: int, cursor: int) -> (Seq<MergedLineView>, int)
    decreases plan.visits.len() - j,
{
    let lines = plan.lines_at(i);
    if 0 <= i < j < plan.visits.len() && plan.visits[j].1 == Some(plan.visits[i].0) {
        let line = clamped(plan.at[j] as int, cursor, lines.len() as int);
        let inner = flattened(plan, j, j + 1, 0);
        let next = if j < inner.1 <= plan.visits.len() {
            inner.1
        } else {
            j + 1
        };
        let rest = flattened(plan, i, next, clamped(line + 1, cursor, lines.len() as int));
        (
            own_lines(lines, plan.visits[i].0, cursor, line) + seq![
                directive(1, plan.marker[j] as nat),
            ] + inner.0 + seq![directive((line + 2) as nat, plan.marker[i] as nat)] + rest.0,
            rest.1,
        )
    } else {
        (own_lines(lines, plan.visits[i].0, cursor, lines.len() as int), j)
    }
}

/// The flattened file of the root of the walk, with every directive.
pub open spec fn expansion(plan: Plan) -> Seq<MergedLineView> {
    if plan.visits.len() == 0 {
        Seq::empty()
    } else {
        flattened(plan, 0, 1, 0).0
    }
}

/// Whether `line` is the version line of `root`: a line of that node that
/// holds a version directive.
pub open spec fn is_root_version(line: MergedLineView, root: usize) -> bool {
    match line.origin {
        Some((node, _)) => node == root && is_version_line(line.text),
        None => false,
    }
}

/// The number of lines in front of the first version line of `root` at or
/// behind the place `from`; the number of all lines from there on where
/// there is none.
pub open spec fn version_offset(all: Seq<MergedLineView>, root: usize, from: int) -> int
    decreases all.len() - from,
{
    if from < 0 || from >= all.len() || is_root_version(all[from], root) {
        0
    } else {
        1 + version_offset(all, root, from + 1)
    }
}

/// The lines `all` without the directives among them.
pub open spec fn without_directives(all: Seq<MergedLineView>) -> Seq<MergedLineView>
    decreases all.len(),
{
    if all.len() == 0 {
        Seq::empty()
    } else if all.last().origin is None {
        without_directives(all.drop_last())
    } else {
        without_directives(all.drop_last()).push(all.last())
    }
}

/// The lines `all`, without the directives that stand in front of the
/// version line of `root` where `all` holds one.
pub open spec fn version_first(all: Seq<MergedLineView>, root: usize) -> Seq<MergedLineView> {
    let place = version_offset(all, root, 0);
    if place >= all.len() {
        all
    } else {
        without_directives(all.take(place)) + all.skip(place)
    }
}

/// The lines of the document that flattens the walk of `plan`.
pub open spec fn merged(plan: Plan) -> Seq<MergedLineView> {
    if plan.visits.len() == 0 {
        Seq::empty()
    } else {
        version_first(expansion(plan), plan.visits[0].0)
    }
}

/// The text of the lines `all`: each line with a line feed behind it.
pub open spec fn text_of(all: Seq<MergedLineView>) -> Seq<u8>
    decreases all.len(),
{
    if all.len() == 0 {
        Seq::empty()
    } else {
        text_of(all.drop_last()) + all.last().text + seq![10u8]
    }
}

/// A flattened document: its lines, and for each marker the node that it
/// stands for.
#[derive(Debug, PartialEq, Eq)]
pub struct MergedDocument {
    pub lines: Vec<MergedLine>,
    pub markers: Vec<usize>,
}

impl MergedDocument {
    /// The text of the document: each line with a line feed behind it.
    pub fn text(&self) -> (text: Vec<u8>)
        ensures
            text@ == text_of(line_views(self.lines@)),
    {
        let mut text: Vec<u8> = Vec::new();
        let mut i: usize = 0;
        assert(line_views(self.lines@).take(0) =~= Seq::<MergedLineView>::empty());
        while i < self.lines.len()
            invariant
                i <= self.lines.len(),
                text@ == text_of(line_views(self.lines@).take(i as int)),
            decreases self.lines.len() - i,
        {
            let ghost now = line_views(self.lines@).take(i + 1);
            assert(now.drop_last() =~= line_views(self.lines@).take(i as int));
            assert(now.last() == self.lines[i as int]@);
            push_bytes(&mut text, self.lines[i].text.as_slice());
            text.push(10);
            i += 1;
        }
        assert(line_views(self.lines@).take(i as int) =~= line_views(self.lines@));
        text
    }

    /// The node and the line from which the line `line` of the document
    /// comes; none for a directive that the engine put in, and for a line
    /// that the document does not have.
    pub fn origin_of(&self, line: usize) -> (origin: Option<(usize, usize)>)
        ensures
            origin == if line < self.lines.len() {
                self.lines[line as int].origin
            } else {
                None
            },
    {
        if line < self.lines.len() {
            self.lines[line].origin
        } else {
            None
        }
    }

    /// The node that the marker `marker` stands for, if the document has
    /// the marker.
    pub fn node_of_marker(&self, marker: usize) -> (node: Option<usize>)
        ensures
            node == if marker < self.markers.len() {
                Some(self.markers[marker as int])
            } else {
                None
            },
    {
        if marker < self.markers.len() {
            Some(self.markers[marker])
        } else {
            None
        }
    }

    /// The first line of the document that comes from the line `line` of
    /// `node`, if there is one.
    pub fn line_of_origin(&self, node: usize, line: usize) -> (found: Option<usize>)
        ensures
            match found {
                Some(k) => k < self.lines.len() && self.lines[k as int].origin == Some((node, line))
                    && forall|j: int| 0 <= j < k ==> self.lines[j].origin != Some((node, line)),
                None => forall|j: int|
                    0 <= j < self.lines.len() ==> self.lines[j].origin != Some((node, line)),
            },
    {
        let mut k: usize = 0;
        while k < self.lines.len()
            invariant
                k <= self.lines.len(),
                forall|j: int| 0 <= j < k ==> self.lines[j].origin != Some((node, line)),
            decreases self.lines.len() - k,
        {
            match self.lines[k].origin {
                Some((n, l)) => {
                    if n == node && l == line {
                        return Some(k);
                    }
                },
                None => {},
            }
            k += 1;
        }
        None
    }
}

/// Appends to `out` the lines `lines` of `node` from the place `from` up
/// to the place `to`, see [`own_lines`].
fn push_own_lines(
    out: &mut Vec<MergedLine>,
    lines: &Vec<Vec<u8>>,
    node: usize,
    from: usize,
    to: usize,
)
    requires
        from <= to <= lines.len(),
    ensures
        line_views(final(out)@) == line_views(old(out)@) + own_lines(
            lists(lines@),
            node,
            from as int,
            to as int,
        ),
{
    let mut k: usize = from;
    assert(line_views(out@) =~= line_views(old(out)@) + own_lines(
        lists(lines@),
        node,
        from as int,
        k as int,
    ));
    while k < to
        invariant
            from <= k <= to <= lines.len(),
            line_views(out@) == line_views(old(out)@) + own_lines(
                lists(lines@),
                node,
                from as int,
                k as int,
            ),
        decreases to - k,
    {
        let ghost had = line_views(out@);
        if !has_extension(lines[k].as_slice()) {
            let line = MergedLine { text: to_vec(lines[k].as_slice()), origin: Some((node, k)) };
            out.push(line);
            assert(line_views(out@) =~= had.push(line@));
        }
        k += 1;
        assert(line_views(out@) =~= line_views(old(out)@) + own_lines(
            lists(lines@),
            node,
            from as int,
            k as int,
        ));
    }
}

/// Whether the walk came to `visit` from `node`.
fn came_from(visit: &Visit, node: usize) -> (came: bool)
    ensures
        came == (visit.1 == Some(node)),
{
    match visit.1 {
        Some(parent) => parent == node,
        None => false,
    }
}

/// Appends to `out` the flattened file of the visit `i`, and gives the
/// place of the first visit that is not below it.
fn flatten(plan: &MergePlan, i: usize, out: &mut Vec<MergedLine>) -> (next: usize)
    requires
        plan@.wf(),
        i < plan.visits.len(),
    ensures
        line_views(final(out)@) == line_views(old(out)@) + flattened(plan@, i as int, i + 1, 0).0,
        next == flattened(plan@, i as int, i + 1, 0).1,
        i < next <= plan.visits.len(),
    decreases plan.visits.len() - i,
{
    let node = plan.visits[i].0;
    let lines = &plan.lines[plan.marker[i]];
    let ghost whole = flattened(plan@, i as int, i + 1, 0);
    let ghost mut done: Seq<MergedLineView> = Seq::empty();
    let mut cursor: usize = 0;
    let mut j: usize = i + 1;
    assert(line_views(out@) =~= line_views(old(out)@) + done);
    while j < plan.visits.len() && came_from(&plan.visits[j], node)
        invariant
            plan@.wf(),
            i < j <= plan.visits.len(),
            node == plan.visits[i as int].0,
            lists(lines@) == plan@.lines_at(i as int),
            cursor <= lines.len(),
            whole == flattened(plan@, i as int, i + 1, 0),
            line_views(out@) == line_views(old(out)@) + done,
            whole.0 == done + flattened(plan@, i as int, j as int, cursor as int).0,
            whole.1 == flattened(plan@, i as int, j as int, cursor as int).1,
        decreases plan.visits.len() - j,
    {
        let at = plan.at[j];
        let line: usize = if at < cursor {
            cursor
        } else if at > lines.len() {
            lines.len()
        } else {
            at
        };
        let after: usize = if line < lines.len() {
            line + 1
        } else {
            line
        };
        let ghost had = line_views(out@);
        push_own_lines(out, lines, node, cursor, line);
        let open = make_directive(1, plan.marker[j]);
        let ghost with_own = line_views(out@);
        out.push(open);
        assert(line_views(out@) =~= with_own.push(open@));
        let next = flatten(plan, j, out);
        let close = make_directive(line as u128 + 2, plan.marker[i]);
        let ghost with_inner = line_views(out@);
        out.push(close);
        assert(line_views(out@) =~= with_inner.push(close@));
        proof {
            let inner = flattened(plan@, j as int, j + 1, 0);
            let step = own_lines(lists(lines@), node, cursor as int, line as int) + seq![
                directive(1, plan.marker[j as int] as nat),
            ] + inner.0 + seq![directive((line + 2) as nat, plan.marker[i as int] as nat)];
            assert(line_views(out@) =~= had + step);
            assert(flattened(plan@, i as int, j as int, cursor as int).0 =~= step + flattened(
                plan@,
                i as int,
                next as int,
                after as int,
            ).0);
            assert(whole.0 =~= (done + step) + flattened(
                plan@,
                i as int,
                next as int,
                after as int,
            ).0);
            done = done + step;
            assert(line_views(out@) =~= line_views(old(out)@) + done);
        }
        cursor = after;
        j = next;
    }
    let ghost had = line_views(out@);
    push_own_lines(out, lines, node, cursor, lines.len());
    assert(line_views(out@) =~= line_views(old(out)@) + whole.0);
    j
}

/// No node stands twice among the distinct nodes of a walk, and each node
/// of the walk stands among them.
pub proof fn lemma_distinct_nodes(visits: Seq<Visit>)
    ensures
        distinct_nodes(visits).no_duplicates(),
        forall|j: int| 0 <= j < visits.len() ==> distinct_nodes(visits).contains(visits[j].0),
    decreases visits.len(),
{
    if visits.len() > 0 {
        let before = distinct_nodes(visits.drop_last());
        lemma_distinct_nodes(visits.drop_last());
        assert forall|j: int| 0 <= j < visits.len() implies distinct_nodes(visits).contains(
            visits[j].0,
        ) by {
            if j < visits.len() - 1 {
                assert(visits.drop_last()[j] == visits[j]);
                let at = choose|at: int| 0 <= at < before.len() && before[at] == visits[j].0;
                assert(distinct_nodes(visits)[at] == visits[j].0);
            } else if before.contains(visits.last().0) {
            } else {
                assert(distinct_nodes(visits)[before.len() as int] == visits[j].0);
            }
        }
    }
}

/// The source of `node` among `sources`, see [`source_of`].
fn find_source(sources: &Vec<(usize, Vec<u8>)>, node: usize) -> (source: Vec<u8>)
    ensures
        source@ == source_of(source_views(sources@), node),
{
    let ghost all = source_views(sources@);
    let mut i: usize = 0;
    assert(all.skip(0) =~= all);
    while i < sources.len()
        invariant
            i <= sources.len(),
            all == source_views(sources@),
            source_of(all, node) == source_of(all.skip(i as int), node),
        decreases sources.len() - i,
    {
        assert(all.skip(i as int)[0] == all[i as int]);
        if sources[i].0 == node {
            return to_vec(sources[i].1.as_slice());
        }
        assert(all.skip(i as int).skip(1) =~= all.skip(i + 1));
        i += 1;
    }
    Vec::new()
}

/// The place of `node` in `nodes`, where `nodes` holds it.
fn place_of(nodes: &Vec<usize>, node: usize) -> (at: usize)
    requires
        nodes@.contains(node),
        nodes@.no_duplicates(),
    ensures
        at < nodes.len(),
        at == nodes@.index_of(node),
{
    let mut at: usize = 0;
    while at < nodes.len()
        invariant
            at <= nodes.len(),
            nodes@.contains(node),
            nodes@.no_duplicates(),
            forall|j: int| 0 <= j < at ==> nodes[j] != node,
        decreases nodes.len() - at,
    {
        if nodes[at] == node {
            return at;
        }
        at += 1;
    }
    proof {
        let j = choose|j: int| 0 <= j < nodes.len() && nodes[j] == node;
    }
    at
}

/// The plan for the walk `nodes` over `graph`, with the sources `sources`.
pub fn make_plan(
    nodes: &Vec<Visit>,
    sources: &Vec<(usize, Vec<u8>)>,
    graph: &CachedStableGraph,
) -> (plan: MergePlan)
    requires
        graph.wf(),
    ensures
        plan@ == plan_of(nodes@, *graph, source_views(sources@)),
        plan@.wf(),
{
    let ghost goal = plan_of(nodes@, *graph, source_views(sources@));
    let mut markers: Vec<usize> = Vec::new();
    let mut j: usize = 0;
    assert(nodes@.take(0) =~= Seq::<Visit>::empty());
    while j < nodes.len()
        invariant
            j <= nodes.len(),
            markers@ == distinct_nodes(nodes@.take(j as int)),
        decreases nodes.len() - j,
    {
        proof {
            lemma_distinct_nodes(nodes@.take(j as int));
            assert(nodes@.take(j + 1).drop_last() =~= nodes@.take(j as int));
        }
        let node = nodes[j].0;
        let mut known = false;
        let mut m: usize = 0;
        while m < markers.len() && !known
            invariant
                m <= markers.len(),
                known ==> markers@.contains(node),
                !known ==> forall|q: int| 0 <= q < m ==> markers[q] != node,
            decreases markers.len() - m + (if known { 0int } else { 1int }),
        {
            if markers[m] == node {
                known = true;
            } else {
                m += 1;
            }
        }
        if !known {
            markers.push(node);
        }
        j += 1;
    }
    assert(nodes@.take(j as int) =~= nodes@);
    proof {
        lemma_distinct_nodes(nodes@);
    }
    let mut visits: Vec<Visit> = Vec::new();
    let mut at: Vec<usize> = Vec::new();
    let mut marker: Vec<usize> = Vec::new();
    let mut j: usize = 0;
    while j < nodes.len()
        invariant
            graph.wf(),
            j <= nodes.len(),
            markers@ == distinct_nodes(nodes@),
            markers@.no_duplicates(),
            forall|q: int| 0 <= q < nodes.len() ==> markers@.contains(nodes[q].0),
            visits@ == nodes@.take(j as int),
            at.len() == j,
            marker.len() == j,
            forall|q: int| 0 <= q < j ==> at[q] == include_line(*graph, nodes[q]),
            forall|q: int| 0 <= q < j ==> marker[q] == markers@.index_of(nodes[q].0),
            forall|q: int| 0 <= q < j ==> marker[q] < markers.len(),
        decreases nodes.len() - j,
    {
        let visit = nodes[j];
        let line = match visit.1 {
            Some(parent) => match graph.get_edge_meta(parent, visit.0) {
                Some(position) => position.line,
                None => usize::MAX,
            },
            None => usize::MAX,
        };
        let place = place_of(&markers, visit.0);
        visits.push(visit);
        at.push(line);
        marker.push(place);
        assert(visits@ =~= nodes@.take(j + 1));
        j += 1;
    }
    assert(nodes@.take(j as int) =~= nodes@);
    let mut lines_by_marker: Vec<Vec<Vec<u8>>> = Vec::new();
    let mut m: usize = 0;
    while m < markers.len()
        invariant
            m <= markers.len(),
            lines_by_marker.len() == m,
            forall|q: int|
                0 <= q < m ==> lists((#[trigger] lines_by_marker[q])@) == lines_of(
                    source_of(source_views(sources@), markers[q]),
                ),
        decreases markers.len() - m,
    {
        let source = find_source(sources, markers[m]);
        let found = lines(source.as_slice());
        lines_by_marker.push(found);
        m += 1;
    }
    let plan = MergePlan { visits, at, marker, markers, lines: lines_by_marker };
    proof {
        assert(plan@.visits =~= goal.visits);
        assert(plan@.at =~= goal.at);
        assert(plan@.marker =~= goal.marker);
        assert(plan@.markers =~= goal.markers);
        assert(plan@.lines =~= goal.lines);
        assert forall|q: int| 0 <= q < plan@.visits.len() implies (#[trigger] plan@.marker[q])
            < plan@.markers.len() && plan@.markers[plan@.marker[q] as int] == plan@.visits[q].0 by {
            assert(markers@.contains(nodes[q].0));
        }
    }
    plan
}

/// The lines `all`, without the directives that stand in front of the
/// version line of `root`, see [`version_first`].
fn put_version_first(all: Vec<MergedLine>, root: usize) -> (found: Vec<MergedLine>)
    ensures
        line_views(found@) == version_first(line_views(all@), root),
{
    let ghost views = line_views(all@);
    let mut place: usize = 0;
    loop
        invariant_except_break
            place <= all.len(),
            views == line_views(all@),
            version_offset(views, root, 0) == place + version_offset(views, root, place as int),
        ensures
            place <= all.len(),
            version_offset(views, root, 0) == place,
        decreases all.len() - place,
    {
        if place >= all.len() {
            break ;
        }
        let hit = match all[place].origin {
            Some((node, _)) => node == root && has_version(all[place].text.as_slice()),
            None => false,
        };
        assert(hit == is_root_version(views[place as int], root));
        if hit {
            break ;
        }
        place += 1;
    }
    if place >= all.len() {
        return all;
    }
    let mut found: Vec<MergedLine> = Vec::new();
    let mut k: usize = 0;
    assert(views.take(0) =~= Seq::<MergedLineView>::empty());
    while k < place
        invariant
            k <= place < all.len(),
            views == line_views(all@),
            line_views(found@) == without_directives(views.take(k as int)),
        decreases place - k,
    {
        let ghost had = line_views(found@);
        assert(views.take(k + 1).drop_last() =~= views.take(k as int));
        assert(views.take(k + 1).last() == views[k as int]);
        if all[k].origin.is_some() {
            let line = MergedLine { text: to_vec(all[k].text.as_slice()), origin: all[k].origin };
            found.push(line);
            assert(line_views(found@) =~= had.push(views[k as int]));
        }
        k += 1;
    }
    let ghost front = line_views(found@);
    while k < all.len()
        invariant
            place <= k <= all.len(),
            views == line_views(all@),
            line_views(found@) == front + views.subrange(place as int, k as int),
        decreases all.len() - k,
    {
        let ghost had = line_views(found@);
        let line = MergedLine { text: to_vec(all[k].text.as_slice()), origin: all[k].origin };
        found.push(line);
        assert(line_views(found@) =~= had.push(views[k as int]));
        assert(views.subrange(place as int, k + 1) =~= views.subrange(place as int, k as int).push(
            views[k as int],
        ));
        k += 1;
    }
    assert(views.subrange(place as int, k as int) =~= views.skip(place as int));
    found
}

/// The document that flattens the walk `nodes` over `graph`: the root of
/// the walk with the files that it includes in place of the directives
/// that include them. `sources` holds the text of each file by its node; a
/// file without an entry counts as empty.
pub fn generate_merge_list(
    nodes: &Vec<Visit>,
    sources: &Vec<(usize, Vec<u8>)>,
    graph: &CachedStableGraph,
) -> (document: MergedDocument)
    requires
        graph.wf(),
    ensures
        line_views(document.lines@) == merged(plan_of(nodes@, *graph, source_views(sources@))),
        document.markers@ == distinct_nodes(nodes@),
{
    let plan = make_plan(nodes, sources, graph);
    let mut all: Vec<MergedLine> = Vec::new();
    if plan.visits.len() == 0 {
        assert(line_views(all@) =~= Seq::<MergedLineView>::empty());
        return MergedDocument { lines: all, markers: plan.markers };
    }
    assert(line_views(all@) =~= Seq::<MergedLineView>::empty());
    flatten(&plan, 0, &mut all);
    assert(line_views(all@) =~= expansion(plan@));
    let root = plan.visits[0].0;
    let lines = put_version_first(all, root);
    MergedDocument { lines, markers: plan.markers }
}

/// Whether `line` is true to its origin: where it comes from a line of a
/// file, it holds the text of that line.
pub open spec fn is_faithful(plan: Plan, line: MergedLineView) -> bool {
    match line.origin {
        Some((node, at)) => exists|m: int|
            0 <= m < plan.markers.len() && #[trigger] plan.markers[m] == node && 0 <= at
                < plan.lines[m].len() && plan.lines[m][at] == line.text,
        None => true,
    }
}

/// The lines that a file gives to the document are true to their origin.
proof fn lemma_own_lines_faithful(plan: Plan, i: int, from: int, to: int, k: int)
    requires
        plan.wf(),
        0 <= i < plan.visits.len(),
        0 <= k < own_lines(plan.lines_at(i), plan.visits[i].0, from, to).len(),
    ensures
        is_faithful(plan, own_lines(plan.lines_at(i), plan.visits[i].0, from, to)[k]),
    decreases to - from,
{
    let lines = plan.lines_at(i);
    let node = plan.visits[i].0;
    let all = own_lines(lines, node, from, to);
    let before = own_lines(lines, node, from, to - 1);
    if k < before.len() {
        lemma_own_lines_faithful(plan, i, from, to - 1, k);
        assert(all[k] == before[k]);
    } else {
        let m = plan.marker[i] as int;
        assert(plan.markers[m] == node);
        assert(all[k].text == plan.lines[m][to - 1]);
    }
}

/// The lines of a flattened file are true to their origin.
proof fn lemma_flattened_faithful(plan: Plan, i: int, j: int, cursor: int, k: int)
    requires
        plan.wf(),
        0 <= i < plan.visits.len(),
        0 <= k < flattened(plan, i, j, cursor).0.len(),
    ensures
        is_faithful(plan, flattened(plan, i, j, cursor).0[k]),
    decreases plan.visits.len() - j,
{
    let lines = plan.lines_at(i);
    let node = plan.visits[i].0;
    if 0 <= i < j < plan.visits.len() && plan.visits[j].1 == Some(node) {
        let line = clamped(plan.at[j] as int, cursor, lines.len() as int);
        let inner = flattened(plan, j, j + 1, 0);
        let next = if j < inner.1 <= plan.visits.len() {
            inner.1
        } else {
            j + 1
        };
        let after = clamped(line + 1, cursor, lines.len() as int);
        let rest = flattened(plan, i, next, after);
        let own = own_lines(lines, node, cursor, line);
        let open = seq![directive(1, plan.marker[j] as nat)];
        let close = seq![directive((line + 2) as nat, plan.marker[i] as nat)];
        let all = own + open + inner.0 + close + rest.0;
        assert(flattened(plan, i, j, cursor).0 == all);
        if k < own.len() {
            lemma_own_lines_faithful(plan, i, cursor, line, k);
            assert(all[k] == own[k]);
        } else if k < own.len() + 1 {
            assert(all[k] == open[0]);
        } else if k < own.len() + 1 + inner.0.len() {
            lemma_flattened_faithful(plan, j, j + 1, 0, k - own.len() - 1);
            assert(all[k] == inner.0[k - own.len() - 1]);
        } else if k < own.len() + 1 + inner.0.len() + 1 {
            assert(all[k] == close[0]);
        } else {
            let at = k - own.len() - 1 - inner.0.len() - 1;
            lemma_flattened_faithful(plan, i, next, after, at);
            assert(all[k] == rest.0[at]);
        }
    } else {
        lemma_own_lines_faithful(plan, i, cursor, lines.len() as int, k);
    }
}

/// Each of the lines that are left without the directives is one of the
/// lines.
proof fn lemma_without_directives(all: Seq<MergedLineView>, k: int)
    requires
        0 <= k < without_directives(all).len(),
    ensures
        all.contains(without_directives(all)[k]),
    decreases all.len(),
{
    let before = without_directives(all.drop_last());
    if k < before.len() {
        lemma_without_directives(all.drop_last(), k);
        let at = choose|at: int|
            0 <= at < all.drop_last().len() && all.drop_last()[at] == before[k];
        assert(all[at] == before[k]);
    } else {
        assert(all[all.len() - 1] == without_directives(all)[k]);
    }
}

/// The version line of the root stands in the lines, or nowhere.
proof fn lemma_version_offset(all: Seq<MergedLineView>, root: usize, from: int)
    requires
        0 <= from <= all.len(),
    ensures
        0 <= version_offset(all, root, from) <= all.len() - from,
        version_offset(all, root, from) < all.len() - from ==> is_root_version(
            all[from + version_offset(all, root, from)],
            root,
        ),
    decreases all.len() - from,
{
    if from < all.len() && !is_root_version(all[from], root) {
        lemma_version_offset(all, root, from + 1);
    }
}

/// None of the lines that are left without the directives is a directive.
proof fn lemma_without_directives_has_none(all: Seq<MergedLineView>, k: int)
    requires
        0 <= k < without_directives(all).len(),
    ensures
        without_directives(all)[k].origin is Some,
    decreases all.len(),
{
    let before = without_directives(all.drop_last());
    if k < before.len() {
        lemma_without_directives_has_none(all.drop_last(), k);
    }
}

/// No directive stands in front of the version line of the root: where
/// the lines hold a version line of the root, every directive that is left
/// stands behind one.
pub proof fn lemma_version_stands_first(all: Seq<MergedLineView>, root: usize, k: int)
    requires
        exists|i: int| 0 <= i < all.len() && is_root_version(all[i], root),
        0 <= k < version_first(all, root).len(),
        version_first(all, root)[k].origin is None,
    ensures
        exists|j: int| 0 <= j < k && is_root_version(version_first(all, root)[j], root),
{
    let place = version_offset(all, root, 0);
    lemma_version_offset(all, root, 0);
    let i = choose|i: int| 0 <= i < all.len() && is_root_version(all[i], root);
    lemma_version_offset_finds(all, root, 0, i);
    let front = without_directives(all.take(place));
    let found = version_first(all, root);
    if k < front.len() {
        lemma_without_directives_has_none(all.take(place), k);
        assert(found[k] == front[k]);
    }
    assert(found[front.len() as int] == all.skip(place)[0]);
    assert(is_root_version(found[front.len() as int], root));
}

/// The version line of the root is found where the lines hold one.
proof fn lemma_version_offset_finds(all: Seq<MergedLineView>, root: usize, from: int, i: int)
    requires
        0 <= from <= i < all.len(),
        is_root_version(all[i], root),
    ensures
        version_offset(all, root, from) <= i - from,
    decreases all.len() - from,
{
    if from < i && !is_root_version(all[from], root) {
        lemma_version_offset_finds(all, root, from + 1, i);
    }
}

/// There are no more distinct nodes than visits.
pub proof fn lemma_distinct_nodes_len(visits: Seq<Visit>)
    ensures
        distinct_nodes(visits).len() <= visits.len(),
    decreases visits.len(),
{
    if visits.len() > 0 {
        lemma_distinct_nodes_len(visits.drop_last());
    }
}

/// The parts of the plan for a walk fit together.
pub proof fn lemma_plan_of_wf(
    visits: Seq<Visit>,
    graph: CachedStableGraph,
    sources: Seq<(usize, Seq<u8>)>,
)
    requires
        visits.len() <= usize::MAX,
    ensures
        plan_of(visits, graph, sources).wf(),
{
    let plan = plan_of(visits, graph, sources);
    lemma_distinct_nodes(visits);
    lemma_distinct_nodes_len(visits);
    assert forall|j: int| 0 <= j < plan.visits.len() implies (#[trigger] plan.marker[j])
        < plan.markers.len() && plan.markers[plan.marker[j] as int] == plan.visits[j].0 by {
        assert(plan.markers.contains(visits[j].0));
    }
}

/// The document is true to the sources: a line of the document that comes
/// from a line of a file holds the text of that line of the file's source.
/// The lines that come from no file are the `#line` directives that the
/// engine put in.
pub proof fn lemma_merged_lines_are_source_lines(
    visits: Seq<Visit>,
    graph: CachedStableGraph,
    sources: Seq<(usize, Seq<u8>)>,
    k: int,
)
    requires
        visits.len() <= usize::MAX,
        0 <= k < merged(plan_of(visits, graph, sources)).len(),
    ensures
        match merged(plan_of(visits, graph, sources))[k].origin {
            Some((node, at)) => 0 <= at < lines_of(source_of(sources, node)).len() && lines_of(
                source_of(sources, node),
            )[at] == merged(plan_of(visits, graph, sources))[k].text,
            None => true,
        },
{
    let plan = plan_of(visits, graph, sources);
    lemma_plan_of_wf(visits, graph, sources);
    let all = expansion(plan);
    let root = plan.visits[0].0;
    let found = merged(plan);
    let place = version_offset(all, root, 0);
    lemma_version_offset(all, root, 0);
    assert(all.contains(found[k])) by {
        if place >= all.len() {
            assert(all[k] == found[k]);
        } else {
            let front = without_directives(all.take(place));
            if k < front.len() {
                lemma_without_directives(all.take(place), k);
                let at = choose|at: int|
                    0 <= at < all.take(place).len() && all.take(place)[at] == front[k];
                assert(all[at] == front[k]);
            } else {
                assert(all.skip(place)[k - front.len()] == found[k]);
                assert(all[place + k - front.len()] == found[k]);
            }
        }
    }
    let at = choose|at: int| 0 <= at < all.len() && all[at] == found[k];
    lemma_flattened_faithful(plan, 0, 1, 0, at);
    assert(is_faithful(plan, found[k]));
}

} // verus!
