use mcshader_lsp::graph::CachedStableGraph;
use mcshader_lsp::lint::{load_sources, plan_lint, source_files, LintError, LintPlan, Tree};
use mcshader_lsp::protocol::{Diagnostic, DiagnosticSeverity, Position, Range};
use mcshader_lsp::server::MinecraftShaderLanguageServer;
use mcshader_lsp::{IncludePosition, TreeType};

fn lines_of(text: &str) -> Vec<Option<Vec<u8>>> {
    text.lines().map(|line| Some(line.as_bytes().to_vec())).collect()
}

fn finding(line: u32, severity: DiagnosticSeverity, message: &str) -> Diagnostic {
    Diagnostic {
        range: Range {
            start: Position { line, character: 0 },
            end: Position { line, character: 1000 },
        },
        severity,
        source: "mc-glsl",
        message: message.as_bytes().to_vec(),
    }
}

const A: &[u8] = b"/w/shaders/a.fsh";
const B: &[u8] = b"/w/shaders/b.glsl";
const C: &[u8] = b"/w/shaders/c.vsh";

const A_TEXT: &str = "#version 330\r\n#include \"b.glsl\"\r\n";
const B_TEXT: &str = "void f(){}\n";

fn simple_server() -> MinecraftShaderLanguageServer {
    let mut server = MinecraftShaderLanguageServer::new(b"/w");
    server.add_file_and_includes_to_graph(A, &lines_of(A_TEXT));
    server
}

fn simple_raw() -> Vec<(Vec<u8>, Option<Vec<u8>>)> {
    vec![
        (A.to_vec(), Some(A_TEXT.as_bytes().to_vec())),
        (B.to_vec(), Some(B_TEXT.as_bytes().to_vec())),
    ]
}

#[test]
fn plan_of_a_shader_walks_the_shader() {
    let server = simple_server();
    let plan = server.lint(A).unwrap();
    assert_eq!(
        plan,
        LintPlan {
            trigger: A.to_vec(),
            trees: vec![Tree {
                root: 0,
                kind: Some(TreeType::Fragment),
                visits: vec![(0, None), (1, Some(0))],
            }],
            cycle: None,
            reads: vec![(0, A.to_vec()), (1, B.to_vec())],
            touched: vec![A.to_vec(), B.to_vec()],
        }
    );
}

#[test]
fn lint_of_a_file_that_the_graph_lacks_is_an_error() {
    let server = simple_server();
    assert_eq!(
        server.lint(b"/w/shaders/none.fsh"),
        Err(LintError::NodeNotFound(b"/w/shaders/none.fsh".to_vec()))
    );
}

#[test]
fn simple_include_is_linted_without_findings() {
    let server = simple_server();
    let plan = server.lint(A).unwrap();
    let documents = plan.documents(&simple_raw(), &server.graph).unwrap();
    assert_eq!(
        documents,
        vec![(
            TreeType::Fragment,
            b"#version 330\n#line 1 1\nvoid f(){}\n#line 3 0\n".to_vec()
        )]
    );
    let found = plan.finish(&vec![Some(Vec::new())]);
    assert_eq!(found.into_entries(), vec![(A.to_vec(), vec![]), (B.to_vec(), vec![])]);
}

#[test]
fn findings_of_the_driver_are_listed_with_the_files_of_the_walk() {
    let server = simple_server();
    let plan = server.lint(A).unwrap();
    let stdout = b"0(4) : error C0001: bad thing\n/w/shaders/b.glsl(3) : warning C7000: hmm\n/x.glsl(2) : error C1: other".to_vec();
    let found = plan.finish(&vec![Some(stdout)]);
    assert_eq!(
        found.into_entries(),
        vec![
            (A.to_vec(), vec![finding(2, DiagnosticSeverity::Error, "bad thing")]),
            (B.to_vec(), vec![finding(1, DiagnosticSeverity::Warning, "hmm")]),
            (b"/x.glsl".to_vec(), vec![finding(0, DiagnosticSeverity::Error, "other")]),
        ]
    );
}

#[test]
fn driver_that_did_not_run_leaves_empty_lists() {
    let server = simple_server();
    let plan = server.lint(A).unwrap();
    let found = plan.finish(&vec![None]);
    assert_eq!(found.into_entries(), vec![(A.to_vec(), vec![]), (B.to_vec(), vec![])]);
}

#[test]
fn cycle_is_one_finding_on_the_checked_file() {
    let mut server = simple_server();
    server.add_file_and_includes_to_graph(B, &lines_of("#include \"a.fsh\"\n"));
    let plan = server.lint(A).unwrap();
    assert_eq!(plan.trees, vec![]);
    assert_eq!(plan.reads, vec![]);
    let cycle = finding(
        0,
        DiagnosticSeverity::Error,
        "include cycle detected: /w/shaders/b.glsl -> /w/shaders/a.fsh",
    );
    assert_eq!(plan.cycle, Some(cycle.clone()));
    assert_eq!(plan.documents(&Vec::new(), &server.graph), Ok(vec![]));
    let found = plan.finish(&Vec::new());
    assert_eq!(found.into_entries(), vec![(A.to_vec(), vec![cycle]), (B.to_vec(), vec![])]);
}

#[test]
fn cycle_finding_stands_in_place_of_what_the_driver_printed() {
    let mut server = simple_server();
    server.add_file_and_includes_to_graph(B, &lines_of("#include \"a.fsh\"\n"));
    let plan = server.lint(A).unwrap();
    let found = plan.finish(&vec![Some(b"0(4) : error C0001: bad thing".to_vec())]);
    assert_eq!(found.get(A).map(|list| list.len()), Some(1));
    assert_eq!(
        found.get(A).unwrap()[0].message,
        b"include cycle detected: /w/shaders/b.glsl -> /w/shaders/a.fsh".to_vec()
    );
}

#[test]
fn library_is_linted_through_each_shader_that_includes_it() {
    let mut server = simple_server();
    server.add_file_and_includes_to_graph(C, &lines_of("#version 120\n#include \"b.glsl\"\nx\n"));
    let plan = server.lint(B).unwrap();
    assert_eq!(plan.trigger, B.to_vec());
    assert_eq!(
        plan.trees,
        vec![
            Tree {
                root: 0,
                kind: Some(TreeType::Fragment),
                visits: vec![(0, None), (1, Some(0))],
            },
            Tree { root: 2, kind: Some(TreeType::Vertex), visits: vec![(2, None), (1, Some(2))] },
        ]
    );
    assert_eq!(plan.reads, vec![(0, A.to_vec()), (1, B.to_vec()), (2, C.to_vec())]);
    let mut raw = simple_raw();
    raw.push((C.to_vec(), Some(b"#version 120\n#include \"b.glsl\"\nx\n".to_vec())));
    assert_eq!(
        plan.documents(&raw, &server.graph),
        Ok(vec![
            (
                TreeType::Fragment,
                b"#version 330\n#line 1 1\nvoid f(){}\n#line 3 0\n".to_vec()
            ),
            (
                TreeType::Vertex,
                b"#version 120\n#line 1 1\nvoid f(){}\n#line 3 0\nx\n".to_vec()
            ),
        ])
    );
    let found = plan.finish(&vec![
        Some(b"0(3) : error C1: in fragment".to_vec()),
        Some(b"0(3) : warning C2: in vertex".to_vec()),
    ]);
    assert_eq!(
        found.into_entries(),
        vec![
            (B.to_vec(), vec![finding(1, DiagnosticSeverity::Warning, "in vertex")]),
            (A.to_vec(), vec![]),
            (C.to_vec(), vec![]),
        ]
    );
}

#[test]
fn file_of_no_shader_kind_is_read_but_not_compiled() {
    let mut server = MinecraftShaderLanguageServer::new(b"/w");
    server.add_file_and_includes_to_graph(b"/w/shaders/x.glsl", &lines_of("#include \"y.glsl\"\n"));
    let plan = server.lint(b"/w/shaders/x.glsl").unwrap();
    assert_eq!(
        plan.trees,
        vec![Tree { root: 0, kind: None, visits: vec![(0, None), (1, Some(0))] }]
    );
    let raw = vec![
        (b"/w/shaders/x.glsl".to_vec(), Some(b"#include \"y.glsl\"\n".to_vec())),
        (b"/w/shaders/y.glsl".to_vec(), Some(b"y".to_vec())),
    ];
    assert_eq!(plan.documents(&raw, &server.graph), Ok(vec![]));
    let found = plan.finish(&Vec::new());
    assert_eq!(
        found.into_entries(),
        vec![(b"/w/shaders/x.glsl".to_vec(), vec![]), (b"/w/shaders/y.glsl".to_vec(), vec![])]
    );
}

#[test]
fn file_that_was_not_read_ends_the_check() {
    let server = simple_server();
    let plan = server.lint(A).unwrap();
    let only_a = vec![(A.to_vec(), Some(A_TEXT.as_bytes().to_vec()))];
    assert_eq!(
        plan.documents(&only_a, &server.graph),
        Err(LintError::ReadFailed(B.to_vec()))
    );
    let failed = vec![
        (A.to_vec(), None),
        (B.to_vec(), Some(B_TEXT.as_bytes().to_vec())),
    ];
    assert_eq!(
        plan.documents(&failed, &server.graph),
        Err(LintError::ReadFailed(A.to_vec()))
    );
}

#[test]
fn sources_are_loaded_with_the_line_ends_of_unix() {
    let reads = vec![(4, b"/x".to_vec()), (2, b"/y".to_vec())];
    let raw = vec![
        (b"/y".to_vec(), Some(b"y\r\n".to_vec())),
        (b"/x".to_vec(), Some(b"x\r\nz".to_vec())),
        (b"/x".to_vec(), Some(b"later".to_vec())),
    ];
    assert_eq!(
        load_sources(&reads, &raw),
        Ok(vec![(4, b"x\nz".to_vec()), (2, b"y\n".to_vec())])
    );
    assert_eq!(
        load_sources(&reads, &Vec::new()),
        Err(LintError::ReadFailed(b"/x".to_vec()))
    );
    assert_eq!(load_sources(&Vec::new(), &raw), Ok(vec![]));
}

#[test]
fn files_of_a_walk_are_named_once() {
    let mut graph = CachedStableGraph::new();
    let a = graph.add_node(b"a.fsh");
    let b = graph.add_node(b"b.glsl");
    let c = graph.add_node(b"c.glsl");
    let position = IncludePosition { line: 0, start: 10, end: 16 };
    graph.add_edge(a, b, position);
    graph.add_edge(a, c, position);
    graph.add_edge(b, c, position);
    let visits = graph.dfs(a).unwrap();
    assert_eq!(visits.len(), 4);
    assert_eq!(
        source_files(&graph, &visits),
        vec![(a, b"a.fsh".to_vec()), (b, b"b.glsl".to_vec()), (c, b"c.glsl".to_vec())]
    );
}

#[test]
fn plan_stops_at_the_first_walk_that_meets_a_cycle() {
    let mut graph = CachedStableGraph::new();
    let a = graph.add_node(b"a.fsh");
    let b = graph.add_node(b"b.vsh");
    let lib = graph.add_node(b"lib.glsl");
    let loop_a = graph.add_node(b"loop.glsl");
    let position = IncludePosition { line: 0, start: 10, end: 16 };
    graph.add_edge(a, lib, position);
    graph.add_edge(b, loop_a, position);
    graph.add_edge(loop_a, b, position);
    graph.add_edge(b, lib, position);
    let plan = plan_lint(&graph, lib);
    assert_eq!(
        plan.trees,
        vec![Tree {
            root: a,
            kind: Some(TreeType::Fragment),
            visits: vec![(a, None), (lib, Some(a))],
        }]
    );
    assert_eq!(plan.reads, vec![(a, b"a.fsh".to_vec()), (lib, b"lib.glsl".to_vec())]);
    assert_eq!(
        plan.touched,
        vec![b"a.fsh".to_vec(), b"lib.glsl".to_vec(), b"b.vsh".to_vec(), b"loop.glsl".to_vec()]
    );
    assert_eq!(
        plan.cycle.as_ref().map(|finding| finding.message.clone()),
        Some(b"include cycle detected: loop.glsl -> b.vsh".to_vec())
    );
    let found = plan.finish(&Vec::new());
    assert_eq!(found.len(), 4);
    assert_eq!(found.get(b"lib.glsl").map(|list| list.len()), Some(1));
    assert_eq!(found.get(b"a.fsh"), Some(&vec![]));
    assert_eq!(found.get(b"b.vsh"), Some(&vec![]));
    assert_eq!(found.get(b"loop.glsl"), Some(&vec![]));
}
