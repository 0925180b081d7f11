use mcshader_lsp::consts::{LINE_END, LINE_OFFSET, SOURCE};
use mcshader_lsp::diagnostics::{
    diagnostic_for, parse_report, parse_validator_stdout, DriverReport,
};
use mcshader_lsp::protocol::{
    line_range, Diagnostic, DiagnosticSeverity, FileDiagnostics, Position, Range,
};

fn finding(line: u32, severity: DiagnosticSeverity, message: &str) -> Diagnostic {
    Diagnostic {
        range: Range {
            start: Position { line, character: 0 },
            end: Position { line, character: 1000 },
        },
        severity,
        source: "mc-glsl",
        message: message.as_bytes().to_vec(),
    }
}

fn entries(found: FileDiagnostics) -> Vec<(Vec<u8>, Vec<Diagnostic>)> {
    found.into_entries()
}

#[test]
fn constants_of_the_server() {
    assert_eq!(SOURCE, "mc-glsl");
    assert_eq!(LINE_END, 1000);
    assert_eq!(LINE_OFFSET, 2);
    assert_eq!(
        line_range(5),
        Range {
            start: Position { line: 5, character: 0 },
            end: Position { line: 5, character: 1000 },
        }
    );
}

#[test]
fn report_is_split_into_its_parts() {
    assert_eq!(
        parse_report(b"0(7) : error C0001: bad thing"),
        Some(DriverReport {
            filepath: b"0".to_vec(),
            linenum: b"7".to_vec(),
            severity: DiagnosticSeverity::Error,
            message: b"bad thing".to_vec(),
        })
    );
    assert_eq!(
        parse_report(b"/w/shaders/b.glsl(312) : warning A12:  x \"y\" (z) "),
        Some(DriverReport {
            filepath: b"/w/shaders/b.glsl".to_vec(),
            linenum: b"312".to_vec(),
            severity: DiagnosticSeverity::Warning,
            message: b" x \"y\" (z) ".to_vec(),
        })
    );
}

#[test]
fn the_longest_filepath_counts() {
    assert_eq!(
        parse_report(b"a(1)(2) : error C1: m"),
        Some(DriverReport {
            filepath: b"a(1)".to_vec(),
            linenum: b"2".to_vec(),
            severity: DiagnosticSeverity::Error,
            message: b"m".to_vec(),
        })
    );
    assert_eq!(
        parse_report(b"0(1) : error C1: 0(2) : error C2: m"),
        Some(DriverReport {
            filepath: b"0(1) : error C1: 0".to_vec(),
            linenum: b"2".to_vec(),
            severity: DiagnosticSeverity::Error,
            message: b"m".to_vec(),
        })
    );
}

#[test]
fn lines_of_another_form_report_nothing() {
    assert_eq!(parse_report(b""), None);
    assert_eq!(parse_report(b"garbage"), None);
    assert_eq!(parse_report(b"0(7) : note C1: x"), None);
    assert_eq!(parse_report(b"0(7) : error D1: x"), None);
    assert_eq!(parse_report(b"0(7) : error C: x"), None);
    assert_eq!(parse_report(b"0(7) : error C1: "), None);
    assert_eq!(parse_report(b"0(7) : error C1:"), None);
    assert_eq!(parse_report(b"0(7): error C1: x"), None);
    assert_eq!(parse_report(b"0() : error C1: x"), None);
    assert_eq!(parse_report(b"(7) : error C1: x"), None);
    assert_eq!(parse_report(b"a?b(3) : error C1: m"), None);
    assert_eq!(parse_report(b"a\"b(3) : error C1: m"), None);
    assert_eq!(parse_report(b" 0(7) : Error C1: x"), None);
    assert_eq!(parse_report(b"0(7) : errorC1: x"), None);
    assert_eq!(parse_report(b"0(7a) : error C1: x"), None);
}

#[test]
fn diagnostic_goes_to_the_trigger_where_the_file_is_zero() {
    let report = DriverReport {
        filepath: b"0".to_vec(),
        linenum: b"7".to_vec(),
        severity: DiagnosticSeverity::Error,
        message: b" bad thing \r".to_vec(),
    };
    assert_eq!(
        diagnostic_for(&report, b"/w/shaders/a.fsh"),
        (b"/w/shaders/a.fsh".to_vec(), finding(5, DiagnosticSeverity::Error, "bad thing"))
    );
}

#[test]
fn diagnostic_goes_to_the_file_that_the_report_names() {
    let report = DriverReport {
        filepath: b"/w/shaders/b.glsl".to_vec(),
        linenum: b"3".to_vec(),
        severity: DiagnosticSeverity::Warning,
        message: b"hm".to_vec(),
    };
    assert_eq!(
        diagnostic_for(&report, b"/w/shaders/a.fsh"),
        (b"/w/shaders/b.glsl".to_vec(), finding(1, DiagnosticSeverity::Warning, "hm"))
    );
    let zeros = DriverReport {
        filepath: b"00".to_vec(),
        linenum: b"2".to_vec(),
        severity: DiagnosticSeverity::Warning,
        message: b"hm".to_vec(),
    };
    assert_eq!(diagnostic_for(&zeros, b"/w/shaders/a.fsh").0, b"00".to_vec());
}

#[test]
fn line_number_is_two_less_and_not_below_zero() {
    let report = |linenum: &[u8]| DriverReport {
        filepath: b"0".to_vec(),
        linenum: linenum.to_vec(),
        severity: DiagnosticSeverity::Error,
        message: b"m".to_vec(),
    };
    let line = |linenum: &[u8]| diagnostic_for(&report(linenum), b"t").1.range.start.line;
    assert_eq!(line(b"2"), 0);
    assert_eq!(line(b"1"), 0);
    assert_eq!(line(b"0"), 0);
    assert_eq!(line(b"3"), 1);
    assert_eq!(line(b"0100"), 98);
    assert_eq!(line(b"4294967295"), 4294967293);
    assert_eq!(line(b"4294967296"), 0);
    assert_eq!(line(b"x"), 0);
    assert_eq!(line(b""), 0);
}

#[test]
fn driver_diagnostic_is_mapped_back() {
    let found = parse_validator_stdout(b"/w/shaders/a.fsh", b"0(7) : error C0001: bad thing");
    assert_eq!(
        entries(found),
        vec![(
            b"/w/shaders/a.fsh".to_vec(),
            vec![finding(5, DiagnosticSeverity::Error, "bad thing")]
        )]
    );
}

#[test]
fn findings_are_grouped_by_file_in_their_order() {
    let stdout = b"0(3) : error C1: first\nnoise\n0(4) : warning C2: second\r\n/x/y.glsl(10) : error C3: third\n0(9) : error B7: fourth\n";
    let found = parse_validator_stdout(b"/w/a.fsh", stdout);
    assert_eq!(found.len(), 2);
    assert!(found.contains(b"/w/a.fsh"));
    assert!(found.contains(b"/x/y.glsl"));
    assert!(!found.contains(b"0"));
    assert_eq!(
        found.get(b"/x/y.glsl"),
        Some(&vec![finding(8, DiagnosticSeverity::Error, "third")])
    );
    assert_eq!(found.get(b"/other"), None);
    assert_eq!(
        entries(found),
        vec![
            (
                b"/w/a.fsh".to_vec(),
                vec![
                    finding(1, DiagnosticSeverity::Error, "first"),
                    finding(2, DiagnosticSeverity::Warning, "second"),
                    finding(7, DiagnosticSeverity::Error, "fourth"),
                ]
            ),
            (b"/x/y.glsl".to_vec(), vec![finding(8, DiagnosticSeverity::Error, "third")]),
        ]
    );
}

#[test]
fn output_without_findings_gives_no_file() {
    assert_eq!(entries(parse_validator_stdout(b"/w/a.fsh", b"")), vec![]);
    assert_eq!(entries(parse_validator_stdout(b"/w/a.fsh", b"\n\nall fine\n")), vec![]);
}

#[test]
fn file_diagnostics_insert_touch_and_absorb() {
    let mut found = FileDiagnostics::new();
    assert_eq!(found.len(), 0);
    found.touch(b"a");
    found.push(b"b", finding(1, DiagnosticSeverity::Error, "one"));
    found.push(b"b", finding(2, DiagnosticSeverity::Error, "two"));
    found.touch(b"b");
    assert_eq!(found.get(b"a"), Some(&vec![]));
    assert_eq!(found.get(b"b").map(|list| list.len()), Some(2));
    found.insert(b"a", vec![finding(9, DiagnosticSeverity::Warning, "nine")]);
    let mut other = FileDiagnostics::new();
    other.push(b"b", finding(3, DiagnosticSeverity::Information, "three"));
    other.touch(b"c");
    found.absorb(other);
    assert_eq!(
        entries(found),
        vec![
            (b"a".to_vec(), vec![finding(9, DiagnosticSeverity::Warning, "nine")]),
            (b"b".to_vec(), vec![finding(3, DiagnosticSeverity::Information, "three")]),
            (b"c".to_vec(), vec![]),
        ]
    );
}
