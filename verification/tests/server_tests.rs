use mcshader_lsp::dfs::CycleError;
use mcshader_lsp::lint::LintError;
use mcshader_lsp::protocol::{
    Diagnostic, DiagnosticSeverity, DocumentLink, FileDiagnostics, Position,
    PublishDiagnosticsParams, Range,
};
use mcshader_lsp::server::MinecraftShaderLanguageServer;
use mcshader_lsp::IncludePosition;

fn lines_of(text: &[&str]) -> Vec<Option<Vec<u8>>> {
    text.iter().map(|line| Some(line.as_bytes().to_vec())).collect()
}

fn at(line: usize, end: usize) -> IncludePosition {
    IncludePosition { line, start: 10, end }
}

#[test]
fn new_server_has_an_empty_graph() {
    let server = MinecraftShaderLanguageServer::new(b"/w");
    assert_eq!(server.root, b"/w".to_vec());
    assert_eq!(server.graph.node_count(), 0);
    assert!(server.is_in_workspace(b"/w/shaders/a.fsh"));
    assert!(!server.is_in_workspace(b"/elsewhere/a.fsh"));
}

#[test]
fn error_not_available_has_code_one() {
    let error = MinecraftShaderLanguageServer::error_not_available(7u8);
    assert_eq!(error.code, 1);
    assert_eq!(error.message, "Functionality not implemented.");
    assert_eq!(error.data, 7u8);
}

#[test]
fn find_includes_resolves_against_the_root_of_the_server() {
    let server = MinecraftShaderLanguageServer::new(b"/w");
    assert_eq!(
        server.find_includes(
            b"/w/shaders/a.fsh",
            &lines_of(&["#version 330", "#include \"/lib/c.glsl\""])
        ),
        vec![(b"/w/shaders/lib/c.glsl".to_vec(), at(1, 21))]
    );
}

#[test]
fn absolute_include_makes_an_edge_into_the_shaders_directory() {
    let mut server = MinecraftShaderLanguageServer::new(b"/w");
    let a = server.add_file_and_includes_to_graph(
        b"/w/shaders/a.fsh",
        &lines_of(&["#version 330", "#include \"/lib/c.glsl\""]),
    );
    let c = server.graph.find_node(b"/w/shaders/lib/c.glsl");
    assert_eq!(c, Some(1));
    assert_eq!(server.graph.child_node_indexes(a), vec![1]);
    assert_eq!(server.graph.get_edge_meta(a, 1), Some(at(1, 21)));
}

#[test]
fn add_include_adds_the_node_and_the_edge() {
    let mut server = MinecraftShaderLanguageServer::new(b"/w");
    let a = server.graph.add_node(b"/w/shaders/a.fsh");
    server.add_include((b"/w/shaders/b.glsl".to_vec(), at(3, 16)), a);
    server.add_include((b"/w/shaders/b.glsl".to_vec(), at(5, 16)), a);
    assert_eq!(server.graph.node_count(), 2);
    assert_eq!(
        server.graph.child_node_meta(a),
        vec![
            (b"/w/shaders/b.glsl".to_vec(), at(3, 16)),
            (b"/w/shaders/b.glsl".to_vec(), at(5, 16)),
        ]
    );
}

#[test]
fn adding_a_file_that_was_included_before_keeps_its_node() {
    let mut server = MinecraftShaderLanguageServer::new(b"/w");
    let a = server
        .add_file_and_includes_to_graph(b"/w/shaders/a.fsh", &lines_of(&["#include \"b.glsl\""]));
    let b = server
        .add_file_and_includes_to_graph(b"/w/shaders/b.glsl", &lines_of(&["#include \"c.glsl\""]));
    assert_eq!((a, b), (0, 1));
    assert_eq!(server.graph.node_count(), 3);
    assert_eq!(server.graph.child_node_indexes(a), vec![b]);
    assert_eq!(server.graph.child_node_indexes(b), vec![2]);
    assert_eq!(server.graph.get_node(2), b"/w/shaders/c.glsl".to_vec());
}

#[test]
fn initial_graph_takes_up_the_files_of_four_extensions() {
    let mut server = MinecraftShaderLanguageServer::new(b"/w");
    let files = vec![
        (b"/w/shaders/a.fsh".to_vec(), lines_of(&["#version 330", "#include \"lib/b.glsl\""])),
        (b"/w/shaders/readme.txt".to_vec(), lines_of(&["#include \"x.glsl\""])),
        (b"/w/shaders/g.gsh".to_vec(), lines_of(&["#include \"y.glsl\""])),
        (b"/w/shaders/lib/b.glsl".to_vec(), lines_of(&["#include \"c.inc\""])),
        (b"/w/shaders/lib/c.inc".to_vec(), lines_of(&["float c;"])),
    ];
    server.gen_initial_graph(&files);
    assert_eq!(server.graph.node_count(), 3);
    assert_eq!(server.graph.find_node(b"/w/shaders/a.fsh"), Some(0));
    assert_eq!(server.graph.find_node(b"/w/shaders/lib/b.glsl"), Some(1));
    assert_eq!(server.graph.find_node(b"/w/shaders/lib/c.inc"), Some(2));
    assert_eq!(server.graph.find_node(b"/w/shaders/readme.txt"), None);
    assert_eq!(server.graph.find_node(b"/w/shaders/g.gsh"), None);
    assert_eq!(server.graph.child_node_indexes(0), vec![1]);
    assert_eq!(server.graph.child_node_indexes(1), vec![2]);
    assert_eq!(server.graph.child_node_indexes(2), Vec::<usize>::new());
}

#[test]
fn update_removes_adds_and_keeps_edges() {
    let mut server = MinecraftShaderLanguageServer::new(b"/w");
    let a = server.add_file_and_includes_to_graph(
        b"/w/shaders/a.fsh",
        &lines_of(&["#version 330", "#include \"b.glsl\"", "#include \"c.glsl\""]),
    );
    assert_eq!(server.graph.child_node_indexes(a), vec![1, 2]);
    server.update_includes(
        b"/w/shaders/a.fsh",
        &lines_of(&["#version 330", "#include \"b.glsl\"", "#include \"d.glsl\""]),
    );
    assert_eq!(
        server.graph.child_node_meta(a),
        vec![
            (b"/w/shaders/b.glsl".to_vec(), at(1, 16)),
            (b"/w/shaders/d.glsl".to_vec(), at(2, 16)),
        ]
    );
    assert_eq!(server.graph.child_node_indexes(a), vec![1, 3]);
    assert_eq!(server.graph.node_count(), 4);
    assert_eq!(server.graph.get_node(2), b"/w/shaders/c.glsl".to_vec());
}

#[test]
fn update_takes_a_moved_include_for_a_new_one() {
    let mut server = MinecraftShaderLanguageServer::new(b"/w");
    let a = server.add_file_and_includes_to_graph(
        b"/w/shaders/a.fsh",
        &lines_of(&["#include \"b.glsl\"", "#include \"c.glsl\""]),
    );
    server.update_includes(
        b"/w/shaders/a.fsh",
        &lines_of(&["#include \"b.glsl\"", "", "#include \"c.glsl\""]),
    );
    assert_eq!(
        server.graph.child_node_meta(a),
        vec![
            (b"/w/shaders/b.glsl".to_vec(), at(0, 16)),
            (b"/w/shaders/c.glsl".to_vec(), at(2, 16)),
        ]
    );
    assert_eq!(server.graph.node_count(), 3);
}

#[test]
fn update_leaves_one_edge_for_each_include() {
    let mut server = MinecraftShaderLanguageServer::new(b"/w");
    let lines = lines_of(&["#include \"b.glsl\"", "#include \"c.glsl\""]);
    let a = server.add_file_and_includes_to_graph(b"/w/shaders/a.fsh", &lines);
    server.add_file_and_includes_to_graph(b"/w/shaders/a.fsh", &lines);
    assert_eq!(server.graph.child_node_indexes(a), vec![1, 2, 1, 2]);
    server.update_includes(b"/w/shaders/a.fsh", &lines);
    assert_eq!(
        server.graph.child_node_meta(a),
        vec![
            (b"/w/shaders/b.glsl".to_vec(), at(0, 16)),
            (b"/w/shaders/c.glsl".to_vec(), at(1, 16)),
        ]
    );
}

#[test]
fn update_to_no_include_removes_every_edge() {
    let mut server = MinecraftShaderLanguageServer::new(b"/w");
    let a = server.add_file_and_includes_to_graph(
        b"/w/shaders/a.fsh",
        &lines_of(&["#include \"b.glsl\"", "#include \"c.glsl\""]),
    );
    server.update_includes(b"/w/shaders/a.fsh", &lines_of(&["void main(){}"]));
    assert_eq!(server.graph.child_node_indexes(a), Vec::<usize>::new());
    assert_eq!(server.graph.node_count(), 3);
}

#[test]
fn update_of_an_unknown_file_changes_nothing() {
    let mut server = MinecraftShaderLanguageServer::new(b"/w");
    let a = server
        .add_file_and_includes_to_graph(b"/w/shaders/a.fsh", &lines_of(&["#include \"b.glsl\""]));
    server.update_includes(b"/w/shaders/z.fsh", &lines_of(&["#include \"y.glsl\""]));
    assert_eq!(server.graph.node_count(), 2);
    assert_eq!(server.graph.child_node_indexes(a), vec![1]);
    assert_eq!(server.graph.find_node(b"/w/shaders/z.fsh"), None);
}

#[test]
fn update_leaves_the_edges_of_other_files() {
    let mut server = MinecraftShaderLanguageServer::new(b"/w");
    let a = server
        .add_file_and_includes_to_graph(b"/w/shaders/a.fsh", &lines_of(&["#include \"c.glsl\""]));
    let b = server
        .add_file_and_includes_to_graph(b"/w/shaders/b.vsh", &lines_of(&["#include \"c.glsl\""]));
    server.update_includes(b"/w/shaders/a.fsh", &lines_of(&["#include \"d.glsl\""]));
    assert_eq!(server.graph.child_node_meta(b), vec![(b"/w/shaders/c.glsl".to_vec(), at(0, 16))]);
    assert_eq!(server.graph.child_node_meta(a), vec![(b"/w/shaders/d.glsl".to_vec(), at(0, 16))]);
}

#[test]
fn dfs_for_node_walks_the_graph() {
    let mut server = MinecraftShaderLanguageServer::new(b"/w");
    let a = server.add_file_and_includes_to_graph(
        b"/w/shaders/a.fsh",
        &lines_of(&["#include \"b.glsl\"", "#include \"c.glsl\""]),
    );
    assert_eq!(
        server.get_dfs_for_node(a),
        Ok(vec![(0, None), (1, Some(0)), (2, Some(0))])
    );
    server.add_file_and_includes_to_graph(b"/w/shaders/c.glsl", &lines_of(&["#include \"a.fsh\""]));
    assert_eq!(server.get_dfs_for_node(a), Err(CycleError(2, 0)));
}

#[test]
fn toplevel_ancestors_of_a_library_and_of_a_shader() {
    let mut server = MinecraftShaderLanguageServer::new(b"/w");
    server.add_file_and_includes_to_graph(b"/w/shaders/a.fsh", &lines_of(&["#include \"b.glsl\""]));
    assert_eq!(server.get_file_toplevel_ancestors(b"/w/shaders/b.glsl"), Ok(Some(vec![0])));
    assert_eq!(server.get_file_toplevel_ancestors(b"/w/shaders/a.fsh"), Ok(None));
    assert_eq!(
        server.get_file_toplevel_ancestors(b"/w/shaders/x.fsh"),
        Err(LintError::NodeNotFound(b"/w/shaders/x.fsh".to_vec()))
    );
}

#[test]
fn document_links_follow_the_includes() {
    let mut server = MinecraftShaderLanguageServer::new(b"/w");
    server.add_file_and_includes_to_graph(
        b"/w/shaders/a.fsh",
        &lines_of(&[
            "#version 330",
            "",
            "",
            "",
            "#include \"one.glsl\"",
            "#include \"/lib/two.glsl\"",
            "",
            "",
            "",
            "  #include \"three.glsl\"",
        ]),
    );
    let link = |line: u32, start: u32, end: u32, target: &[u8]| DocumentLink {
        range: Range {
            start: Position { line, character: start },
            end: Position { line, character: end },
        },
        target: target.to_vec(),
    };
    assert_eq!(
        server.document_link(b"/w/shaders/a.fsh"),
        vec![
            link(4, 10, 18, b"/w/shaders/one.glsl"),
            link(5, 10, 23, b"/w/shaders/lib/two.glsl"),
            link(9, 12, 22, b"/w/shaders/three.glsl"),
        ]
    );
    assert_eq!(server.document_link(b"/w/shaders/one.glsl"), Vec::new());
    assert_eq!(server.document_link(b"/w/shaders/unknown.glsl"), Vec::new());
}

#[test]
fn document_link_leaves_out_a_position_that_is_too_large() {
    let mut server = MinecraftShaderLanguageServer::new(b"/w");
    let a = server.graph.add_node(b"a.fsh");
    let b = server.graph.add_node(b"b.glsl");
    if usize::MAX > u32::MAX as usize {
        server.graph.add_edge(
            a,
            b,
            IncludePosition { line: u32::MAX as usize + 1, start: 10, end: 16 },
        );
    }
    server.graph.add_edge(a, b, IncludePosition { line: 1, start: 10, end: 16 });
    let links = server.document_link(b"a.fsh");
    assert_eq!(links.len(), 1);
    assert_eq!(links[0].range.start.line, 1);
}

#[test]
fn diagnostics_are_published_file_by_file() {
    let mut found = FileDiagnostics::new();
    let diagnostic = Diagnostic {
        range: Range {
            start: Position { line: 3, character: 0 },
            end: Position { line: 3, character: 1000 },
        },
        severity: DiagnosticSeverity::Warning,
        source: "mc-glsl",
        message: b"careful".to_vec(),
    };
    found.push(b"/w/shaders/a.fsh", diagnostic.clone());
    found.touch(b"/w/shaders/b.glsl");
    assert_eq!(
        MinecraftShaderLanguageServer::publish_diagnostic(found, Some(4)),
        vec![
            PublishDiagnosticsParams {
                path: b"/w/shaders/a.fsh".to_vec(),
                diagnostics: vec![diagnostic],
                version: Some(4),
            },
            PublishDiagnosticsParams {
                path: b"/w/shaders/b.glsl".to_vec(),
                diagnostics: vec![],
                version: Some(4),
            },
        ]
    );
}

#[test]
fn opened_file_is_added_and_planned() {
    let mut server = MinecraftShaderLanguageServer::new(b"/w");
    let lines = lines_of(&["#version 330", "#include \"b.glsl\""]);
    let plan = server.did_open_text_document(b"/w/shaders/a.fsh", &lines).unwrap();
    assert_eq!(plan.trigger, b"/w/shaders/a.fsh".to_vec());
    assert_eq!(plan.reads.len(), 2);
    assert_eq!(server.graph.node_count(), 2);
    let again = server.did_open_text_document(b"/w/shaders/a.fsh", &lines_of(&["#include \"z.glsl\""]));
    assert!(again.is_some());
    assert_eq!(server.graph.node_count(), 2);
    assert_eq!(server.graph.child_node_indexes(0), vec![1]);
    assert_eq!(server.did_open_text_document(b"/elsewhere/a.fsh", &lines), None);
    assert_eq!(server.graph.node_count(), 2);
}

#[test]
fn saved_file_is_updated_and_planned() {
    let mut server = MinecraftShaderLanguageServer::new(b"/w");
    server.add_file_and_includes_to_graph(
        b"/w/shaders/a.fsh",
        &lines_of(&["#include \"b.glsl\"", "#include \"c.glsl\""]),
    );
    let saved = lines_of(&["#include \"b.glsl\"", "#include \"d.glsl\""]);
    let plan = server.did_save_text_document(b"/w/shaders/a.fsh", &saved).unwrap().unwrap();
    assert_eq!(
        plan.trees[0].visits,
        vec![(0, None), (1, Some(0)), (3, Some(0))]
    );
    assert_eq!(server.graph.child_node_indexes(0), vec![1, 3]);
    assert_eq!(
        server.did_save_text_document(b"/w/shaders/new.fsh", &saved),
        Some(Err(LintError::NodeNotFound(b"/w/shaders/new.fsh".to_vec())))
    );
    assert_eq!(server.did_save_text_document(b"/elsewhere/a.fsh", &saved), None);
    assert_eq!(server.graph.node_count(), 4);
}

#[test]
fn sources_of_a_walk_are_loaded_once_for_each_file() {
    let mut server = MinecraftShaderLanguageServer::new(b"/w");
    server.add_file_and_includes_to_graph(
        b"/w/shaders/a.fsh",
        &lines_of(&["#include \"b.glsl\"", "#include \"b.glsl\""]),
    );
    let visits = server.get_dfs_for_node(0).unwrap();
    assert_eq!(visits.len(), 3);
    let raw = vec![
        (b"/w/shaders/b.glsl".to_vec(), Some(b"B\r\n".to_vec())),
        (b"/w/shaders/a.fsh".to_vec(), Some(b"A".to_vec())),
    ];
    assert_eq!(
        server.load_sources(&visits, &raw),
        Ok(vec![(0, b"A".to_vec()), (1, b"B\n".to_vec())])
    );
    assert_eq!(
        server.load_sources(&visits, &Vec::new()),
        Err(LintError::ReadFailed(b"/w/shaders/a.fsh".to_vec()))
    );
}
