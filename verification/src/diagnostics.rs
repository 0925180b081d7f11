//! The parser for what a GLSL driver prints when it compiles a shader.
//!
//! A line of the driver that reports a finding has the form
//!
//! ```text
//! <filepath>(<linenum>) : <severity> <code>: <message>
//! ```
//!
//! `<filepath>` is one byte or more, none of them `?`, `<`, `>`, `*`, `|` or
//! `"`; `<linenum>` is one digit or more; `<severity>` is `error` or
//! `warning`; `<code>` is one of the letters `A` to `C` and one digit or
//! more; `<message>` is the rest of the line, one byte or more. Where a line
//! can be read in more than one way, the longest `<filepath>` counts. A line
//! of another form reports nothing.

use crate::consts::{LINE_OFFSET, SOURCE};
use crate::protocol::{
    line_range, whole_line, Diagnostic, DiagnosticSeverity, DiagnosticView, FileDiagnostics,
};
use crate::text::{
    ascii, ascii_bytes, bytes_eq, count_digits, digits_len, holds_at, lists, matches_at,
    number_of, parse_u32, split, split_on, to_vec, trim, trimmed,
};
use vstd::prelude::*;
use vstd::slice::slice_subrange;

verus! {

/// The parts of a line that reports a finding.
pub struct Report {
    pub filepath: Seq<u8>,
    pub linenum: Seq<u8>,
    pub severity: DiagnosticSeverity,
    pub message: Seq<u8>,
}

/// The parts of a line that reports a finding.
#[derive(Debug, PartialEq, Eq)]
pub struct DriverReport {
    pub filepath: Vec<u8>,
    pub linenum: Vec<u8>,
    pub severity: DiagnosticSeverity,
    pub message: Vec<u8>,
}

impl View for DriverReport {
    type V = Report;

    open spec fn view(&self) -> Report {
        Report {
            filepath: self.filepath@,
            linenum: self.linenum@,
            severity: self.severity,
            message: self.message@,
        }
    }
}

/// Whether `byte` may stand in a `<filepath>`.
pub open spec fn is_path_byte(byte: u8) -> bool {
    byte != '?' as u8 && byte != '<' as u8 && byte != '>' as u8 && byte != '*' as u8 && byte
        != '|' as u8 && byte != '"' as u8
}

/// The `<severity>` that `line` holds at the place `at`, with its length.
pub open spec fn severity_at(line: Seq<u8>, at: int) -> Option<(DiagnosticSeverity, int)> {
    if matches_at(line, at, ascii("error")) {
        Some((DiagnosticSeverity::Error, 5))
    } else if matches_at(line, at, ascii("warning")) {
        Some((DiagnosticSeverity::Warning, 7))
    } else {
        None
    }
}

/// Whether `line` holds, from the place `at` on, the blank, the `<code>`,
/// the colon and the blank that stand between `<severity>` and `<message>`,
/// and a byte or more behind them.
pub open spec fn code_at(line: Seq<u8>, at: int) -> bool {
    &&& 0 <= at
    &&& at + 1 < line.len()
    &&& line[at] == ' ' as u8
    &&& 'A' as u8 <= line[at + 1] <= 'C' as u8
    &&& digits_len(line, at + 2) >= 1
    &&& matches_at(line, message_start(line, at) - 2, ascii(": "))
    &&& message_start(line, at) < line.len()
}

/// The place at which `<message>` begins, where the blank in front of
/// `<code>` stands at the place `at`.
pub open spec fn message_start(line: Seq<u8>, at: int) -> int {
    at + 2 + digits_len(line, at + 2) + 2
}

/// The parts of `line`, read as a report whose `<filepath>` has `p` bytes,
/// if it can be read so.
pub open spec fn report_at(line: Seq<u8>, p: int) -> Option<Report> {
    let close = p + 1 + digits_len(line, p + 1);
    if 1 <= p < line.len() && (forall|i: int| 0 <= i < p ==> is_path_byte(line[i])) && line[p]
        == '(' as u8 && digits_len(line, p + 1) >= 1 && matches_at(line, close, ascii(") : ")) {
        match severity_at(line, close + 4) {
            Some((severity, n)) => if code_at(line, close + 4 + n) {
                Some(
                    Report {
                        filepath: line.take(p),
                        linenum: line.subrange(p + 1, close),
                        severity,
                        message: line.skip(message_start(line, close + 4 + n)),
                    },
                )
            } else {
                None
            },
            None => None,
        }
    } else {
        None
    }
}

/// The length of the longest `<filepath>` with which `line` can be read as
/// a report.
pub open spec fn longest_filepath(line: Seq<u8>) -> int {
    choose|p: int|
        report_at(line, p) is Some && forall|q: int| report_at(line, q) is Some ==> q <= p
}

/// The parts of `line`, if it reports a finding.
#[verifier::opaque]
pub open spec fn report_of(line: Seq<u8>) -> Option<Report> {
    if exists|p: int| report_at(line, p) is Some {
        report_at(line, longest_filepath(line))
    } else {
        None
    }
}

/// The line that a driver's line number speaks of: `LINE_OFFSET` less, and
/// no less than zero. What is no number, or too large a number for `u32`,
/// counts as zero.
pub open spec fn reported_line(linenum: Seq<u8>) -> u32 {
    match number_of(linenum) {
        Some(n) => if n < LINE_OFFSET {
            0
        } else {
            (n - LINE_OFFSET) as u32
        },
        None => 0,
    }
}

/// The file that a report is for: the file `trigger` where the report
/// names the file `0`, else the file that it names.
pub open spec fn origin_of(report: Report, trigger: Seq<u8>) -> Seq<u8> {
    if report.filepath == ascii("0") {
        trigger
    } else {
        report.filepath
    }
}

/// The diagnostic that a report stands for: it covers the whole line that
/// the report speaks of and carries the tag of this server and the
/// report's message without the white space at its ends.
pub open spec fn diagnostic_of(report: Report) -> DiagnosticView {
    DiagnosticView {
        range: whole_line(reported_line(report.linenum)),
        severity: report.severity,
        source: SOURCE@,
        message: trimmed(report.message),
    }
}

/// The findings that `lines` report, in their order: each with the file
/// that it is for.
pub open spec fn reported(lines: Seq<Seq<u8>>, trigger: Seq<u8>) -> Seq<(Seq<u8>, DiagnosticView)>
    decreases lines.len(),
{
    if lines.len() == 0 {
        Seq::empty()
    } else {
        let before = reported(lines.drop_last(), trigger);
        match report_of(lines.last()) {
            Some(report) => before.push((origin_of(report, trigger), diagnostic_of(report))),
            None => before,
        }
    }
}

/// The findings `items` by file: each file with its findings in their order.
pub open spec fn grouped(items: Seq<(Seq<u8>, DiagnosticView)>) -> Map<Seq<u8>, Seq<DiagnosticView>>
    decreases items.len(),
{
    if items.len() == 0 {
        Map::empty()
    } else {
        let before = grouped(items.drop_last());
        let (path, diagnostic) = items.last();
        before.insert(
            path,
            (if before.contains_key(path) {
                before[path]
            } else {
                Seq::empty()
            }).push(diagnostic),
        )
    }
}

fn parse_severity(line: &[u8], at: usize) -> (found: Option<(DiagnosticSeverity, usize)>)
    ensures
        match found {
            Some((severity, n)) => severity_at(line@, at as int) == Some((severity, n as int)),
            None => severity_at(line@, at as int) is None,
        },
{
    proof {
        reveal_strlit("error");
        reveal_strlit("warning");
    }
    if holds_at(line, at, ascii_bytes("error")) {
        Some((DiagnosticSeverity::Error, 5))
    } else if holds_at(line, at, ascii_bytes("warning")) {
        Some((DiagnosticSeverity::Warning, 7))
    } else {
        None
    }
}

fn parse_code(line: &[u8], at: usize) -> (start: Option<usize>)
    ensures
        match start {
            Some(m) => code_at(line@, at as int) && m == message_start(line@, at as int),
            None => !code_at(line@, at as int),
        },
{
    if at >= line.len() || line.len() - at < 2 {
        return None;
    }
    if line[at] != ' ' as u8 || line[at + 1] < 'A' as u8 || line[at + 1] > 'C' as u8 {
        return None;
    }
    let digits = count_digits(line, at + 2);
    if digits == 0 {
        return None;
    }
    proof {
        reveal_strlit(": ");
    }
    let colon = at + 2 + digits;
    if !holds_at(line, colon, ascii_bytes(": ")) {
        return None;
    }
    if colon + 2 >= line.len() {
        return None;
    }
    Some(colon + 2)
}

/// The parts of `line`, read as a report whose `<filepath>` has `p` bytes,
/// all of which may stand in one.
fn parse_at(line: &[u8], p: usize) -> (found: Option<DriverReport>)
    requires
        forall|i: int| 0 <= i < p && i < line.len() ==> is_path_byte(line[i]),
    ensures
        match found {
            Some(report) => report_at(line@, p as int) == Some(report@),
            None => report_at(line@, p as int) is None,
        },
{
    if p < 1 || p >= line.len() || line[p] != '(' as u8 {
        return None;
    }
    let digits = count_digits(line, p + 1);
    if digits == 0 {
        return None;
    }
    let close = p + 1 + digits;
    proof {
        reveal_strlit(") : ");
        reveal_strlit("error");
        reveal_strlit("warning");
    }
    if !holds_at(line, close, ascii_bytes(") : ")) {
        return None;
    }
    assert(close + 4 <= line.len());
    match parse_severity(line, close + 4) {
        None => None,
        Some((severity, n)) => match parse_code(line, close + 4 + n) {
            None => None,
            Some(start) => {
                let filepath = slice_subrange(line, 0, p);
                let linenum = slice_subrange(line, p + 1, close);
                let message = slice_subrange(line, start, line.len());
                assert(filepath@ =~= line@.take(p as int));
                assert(message@ =~= line@.skip(start as int));
                Some(
                    DriverReport {
                        filepath: to_vec(filepath),
                        linenum: to_vec(linenum),
                        severity,
                        message: to_vec(message),
                    },
                )
            },
        },
    }
}

fn byte_is_path(byte: u8) -> (allowed: bool)
    ensures
        allowed == is_path_byte(byte),
{
    byte != '?' as u8 && byte != '<' as u8 && byte != '>' as u8 && byte != '*' as u8 && byte
        != '|' as u8 && byte != '"' as u8
}

/// The parts of `line`, if it reports a finding.
pub fn parse_report(line: &[u8]) -> (found: Option<DriverReport>)
    ensures
        match found {
            Some(report) => report_of(line@) == Some(report@),
            None => report_of(line@) is None,
        },
{
    let mut span: usize = 0;
    while span < line.len() && byte_is_path(line[span])
        invariant
            span <= line.len(),
            forall|i: int| 0 <= i < span ==> is_path_byte(line[i]),
        decreases line.len() - span,
    {
        span += 1;
    }
    let mut p: usize = span;
    while p > 0
        invariant
            p <= span <= line.len(),
            forall|i: int| 0 <= i < span ==> is_path_byte(line[i]),
            span < line.len() ==> !is_path_byte(line[span as int]),
            forall|q: int| q > p ==> report_at(line@, q) is None,
        decreases p,
    {
        match parse_at(line, p) {
            Some(report) => {
                proof {
                    reveal(report_of);
                    let best = longest_filepath(line@);
                    assert(report_at(line@, p as int) is Some);
                    assert(forall|q: int| report_at(line@, q) is Some ==> q <= p);
                    assert(report_at(line@, best) is Some);
                    assert(best == p);
                }
                return Some(report);
            },
            None => {},
        }
        p -= 1;
    }
    proof {
        reveal(report_of);
        assert(forall|q: int| report_at(line@, q) is None);
    }
    None
}

/// The file that `report` is for and the diagnostic that it stands for, see
/// [`origin_of`] and [`diagnostic_of`].
pub fn diagnostic_for(report: &DriverReport, trigger: &[u8]) -> (found: (Vec<u8>, Diagnostic))
    ensures
        found.0@ == origin_of(report@, trigger@),
        found.1@ == diagnostic_of(report@),
{
    let line: u32 = match parse_u32(report.linenum.as_slice()) {
        Some(n) => if n < LINE_OFFSET {
            0
        } else {
            n - LINE_OFFSET
        },
        None => 0,
    };
    proof {
        reveal_strlit("0");
    }
    let origin = if bytes_eq(report.filepath.as_slice(), ascii_bytes("0")) {
        to_vec(trigger)
    } else {
        to_vec(report.filepath.as_slice())
    };
    let diagnostic = Diagnostic {
        range: line_range(line),
        severity: report.severity,
        source: SOURCE,
        message: trim(report.message.as_slice()),
    };
    (origin, diagnostic)
}

/// The findings `found` with what `line` reports, if it reports a finding.
pub open spec fn recorded(
    found: Map<Seq<u8>, Seq<DiagnosticView>>,
    line: Seq<u8>,
    trigger: Seq<u8>,
) -> Map<Seq<u8>, Seq<DiagnosticView>> {
    match report_of(line) {
        Some(report) => found.insert(
            origin_of(report, trigger),
            (if found.contains_key(origin_of(report, trigger)) {
                found[origin_of(report, trigger)]
            } else {
                Seq::empty()
            }).push(diagnostic_of(report)),
        ),
        None => found,
    }
}

/// The findings of some lines and one more line are those of the lines with
/// what the last line reports.
pub proof fn lemma_recorded(lines: Seq<Seq<u8>>, line: Seq<u8>, trigger: Seq<u8>)
    ensures
        grouped(reported(lines.push(line), trigger)) == recorded(
            grouped(reported(lines, trigger)),
            line,
            trigger,
        ),
{
    assert(lines.push(line).drop_last() =~= lines);
    match report_of(line) {
        Some(report) => {
            let items = reported(lines, trigger);
            let item = (origin_of(report, trigger), diagnostic_of(report));
            assert(reported(lines.push(line), trigger) == items.push(item));
            assert(items.push(item).drop_last() =~= items);
        },
        None => {},
    }
}

/// Each of the findings `items` stands in the group of its file.
pub proof fn lemma_grouped_holds(items: Seq<(Seq<u8>, DiagnosticView)>, k: int)
    requires
        0 <= k < items.len(),
    ensures
        grouped(items).contains_key(items[k].0),
        grouped(items)[items[k].0].contains(items[k].1),
    decreases items.len(),
{
    let before = grouped(items.drop_last());
    let (path, diagnostic) = items.last();
    let list = if before.contains_key(path) {
        before[path]
    } else {
        Seq::empty()
    };
    if k < items.len() - 1 {
        lemma_grouped_holds(items.drop_last(), k);
        assert(items.drop_last()[k] == items[k]);
        if items[k].0 == path {
            let at = choose|at: int| 0 <= at < list.len() && list[at] == items[k].1;
            assert(list.push(diagnostic)[at] == items[k].1);
        }
    } else {
        assert(list.push(diagnostic)[list.len() as int] == diagnostic);
    }
}

/// What a line reports stands among the findings of the lines.
pub proof fn lemma_reported_holds(lines: Seq<Seq<u8>>, trigger: Seq<u8>, i: int)
    requires
        0 <= i < lines.len(),
        report_of(lines[i]) is Some,
    ensures
        reported(lines, trigger).contains(
            (
                origin_of(report_of(lines[i]).unwrap(), trigger),
                diagnostic_of(report_of(lines[i]).unwrap()),
            ),
        ),
    decreases lines.len(),
{
    let item = (
        origin_of(report_of(lines[i]).unwrap(), trigger),
        diagnostic_of(report_of(lines[i]).unwrap()),
    );
    let before = reported(lines.drop_last(), trigger);
    let all = reported(lines, trigger);
    if i < lines.len() - 1 {
        lemma_reported_holds(lines.drop_last(), trigger, i);
        assert(lines.drop_last()[i] == lines[i]);
        let at = choose|at: int| 0 <= at < before.len() && before[at] == item;
        assert(all[at] == item);
    } else {
        assert(all[before.len() as int] == item);
    }
}

/// The finding of every line of the driver that reports one stands in the
/// result, and it stands under the right file: under the file `trigger`
/// where the line names the file `0`, and else under the file that the
/// line names.
pub proof fn lemma_finding_stands_under_its_file(lines: Seq<Seq<u8>>, trigger: Seq<u8>, i: int)
    requires
        0 <= i < lines.len(),
        report_of(lines[i]) is Some,
    ensures
        ({
            let report = report_of(lines[i]).unwrap();
            let file = if report.filepath == ascii("0") {
                trigger
            } else {
                report.filepath
            };
            &&& grouped(reported(lines, trigger)).contains_key(file)
            &&& grouped(reported(lines, trigger))[file].contains(diagnostic_of(report))
        }),
{
    let items = reported(lines, trigger);
    let report = report_of(lines[i]).unwrap();
    let item = (origin_of(report, trigger), diagnostic_of(report));
    lemma_reported_holds(lines, trigger, i);
    let k = choose|k: int| 0 <= k < items.len() && items[k] == item;
    lemma_grouped_holds(items, k);
}

/// Adds to `found` what `line` reports, if it reports a finding.
fn record_line(found: &mut FileDiagnostics, line: &[u8], trigger: &[u8])
    requires
        old(found).wf(),
    ensures
        final(found).wf(),
        final(found)@ == recorded(old(found)@, line@, trigger@),
{
    match parse_report(line) {
        Some(report) => {
            let (origin, diagnostic) = diagnostic_for(&report, trigger);
            found.push(origin.as_slice(), diagnostic);
        },
        None => {},
    }
}

/// The findings that the driver's output `stdout` reports, by file.
/// `trigger` is the path of the file whose lint made the driver run: the
/// findings that name the file `0` are for it.
pub fn parse_validator_stdout(trigger: &[u8], stdout: &[u8]) -> (found: FileDiagnostics)
    ensures
        found.wf(),
        found@ == grouped(reported(split_on(stdout@, 10), trigger@)),
{
    let lines = split(stdout, 10);
    let mut found = FileDiagnostics::new();
    let mut i: usize = 0;
    assert(lists(lines@).take(0) =~= Seq::<Seq<u8>>::empty());
    while i < lines.len()
        invariant
            i <= lines.len(),
            found.wf(),
            found@ == grouped(reported(lists(lines@).take(i as int), trigger@)),
        decreases lines.len() - i,
    {
        proof {
            let before = lists(lines@).take(i as int);
            assert(lists(lines@).take(i + 1) =~= before.push(lines[i as int]@));
            lemma_recorded(before, lines[i as int]@, trigger@);
        }
        record_line(&mut found, lines[i].as_slice(), trigger);
        i += 1;
    }
    assert(lists(lines@).take(i as int) =~= lists(lines@));
    found
}

} // verus!
