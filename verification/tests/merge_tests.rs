use mcshader_lsp::dfs::Visit;
use mcshader_lsp::graph::CachedStableGraph;
use mcshader_lsp::merge_views::{
    generate_merge_list, has_extension, has_version, make_directive, make_plan, MergedDocument,
    MergedLine,
};
use mcshader_lsp::IncludePosition;

fn at(line: usize) -> IncludePosition {
    IncludePosition { line, start: 10, end: 16 }
}

fn texts(document: &MergedDocument) -> Vec<String> {
    document
        .lines
        .iter()
        .map(|line| String::from_utf8(line.text.clone()).unwrap())
        .collect()
}

fn origins(document: &MergedDocument) -> Vec<Option<(usize, usize)>> {
    document.lines.iter().map(|line| line.origin).collect()
}

fn source(node: usize, text: &str) -> (usize, Vec<u8>) {
    (node, text.as_bytes().to_vec())
}

/// a.fsh includes b.glsl at its line 1.
fn simple_graph() -> (CachedStableGraph, Vec<Visit>) {
    let mut graph = CachedStableGraph::new();
    let a = graph.add_node(b"/w/shaders/a.fsh");
    let b = graph.add_node(b"/w/shaders/b.glsl");
    graph.add_edge(a, b, at(1));
    let visits = graph.dfs(a).unwrap();
    (graph, visits)
}

#[test]
fn version_lines_are_told() {
    assert!(has_version(b"#version 330"));
    assert!(has_version(b"  #version 330 core"));
    assert!(has_version(b"// #version 120"));
    assert!(has_version(b"#version 1234"));
    assert!(!has_version(b"#version 33"));
    assert!(!has_version(b"#version  330"));
    assert!(!has_version(b"#version"));
    assert!(!has_version(b"version 330"));
    assert!(!has_version(b""));
}

#[test]
fn extension_lines_are_told() {
    assert!(has_extension(b"#extension GL_GOOGLE_include_directive : require"));
    assert!(has_extension(b"#extension GL_GOOGLE_include_directive: require"));
    assert!(has_extension(b"#extension GL_GOOGLE_include_directive :require"));
    assert!(has_extension(b"#extension GL_GOOGLE_include_directive:require"));
    assert!(has_extension(b"  #extension GL_GOOGLE_include_directive : require // x"));
    assert!(!has_extension(b"#extension GL_GOOGLE_include_directive  : require"));
    assert!(!has_extension(b"#extension GL_GOOGLE_include_directive : enable"));
    assert!(!has_extension(b"#extension GL_ARB_shading_language_420pack : require"));
    assert!(!has_extension(b"#extension GL_GOOGLE_include_directive"));
    assert!(!has_extension(b""));
}

#[test]
fn directive_names_line_and_marker() {
    assert_eq!(
        make_directive(1, 2),
        MergedLine { text: b"#line 1 2".to_vec(), origin: None }
    );
    assert_eq!(
        make_directive(1234, 0),
        MergedLine { text: b"#line 1234 0".to_vec(), origin: None }
    );
}

#[test]
fn included_file_stands_in_place_of_the_directive() {
    let (graph, visits) = simple_graph();
    let sources = vec![
        source(0, "#version 330\n#include \"b.glsl\"\nvoid main(){}\n"),
        source(1, "void f(){}\n"),
    ];
    let document = generate_merge_list(&visits, &sources, &graph);
    assert_eq!(
        texts(&document),
        vec!["#version 330", "#line 1 1", "void f(){}", "#line 3 0", "void main(){}"]
    );
    assert_eq!(
        origins(&document),
        vec![Some((0, 0)), None, Some((1, 0)), None, Some((0, 2))]
    );
    assert_eq!(document.markers, vec![0, 1]);
    assert_eq!(
        document.text(),
        b"#version 330\n#line 1 1\nvoid f(){}\n#line 3 0\nvoid main(){}\n".to_vec()
    );
}

#[test]
fn every_line_from_a_file_is_that_line_of_the_file() {
    let mut graph = CachedStableGraph::new();
    let a = graph.add_node(b"a.fsh");
    let b = graph.add_node(b"b.glsl");
    let c = graph.add_node(b"c.glsl");
    graph.add_edge(a, b, at(1));
    graph.add_edge(b, c, at(1));
    let visits = graph.dfs(a).unwrap();
    let sources = vec![
        source(a, "#version 120\n#include \"b.glsl\"\nA\n"),
        source(b, "B0\n#include \"c.glsl\"\nB2\n"),
        source(c, "C0"),
    ];
    let document = generate_merge_list(&visits, &sources, &graph);
    assert_eq!(
        texts(&document),
        vec![
            "#version 120",
            "#line 1 1",
            "B0",
            "#line 1 2",
            "C0",
            "#line 3 1",
            "B2",
            "#line 3 0",
            "A",
        ]
    );
    for line in &document.lines {
        match line.origin {
            Some((node, at)) => {
                let text = &sources[node].1;
                let lines: Vec<&[u8]> = text.split(|byte| *byte == b'\n').collect();
                assert_eq!(lines[at], line.text.as_slice());
            }
            None => assert!(line.text.starts_with(b"#line ")),
        }
    }
}

#[test]
fn file_that_is_included_twice_stands_twice() {
    let mut graph = CachedStableGraph::new();
    let a = graph.add_node(b"a.fsh");
    let b = graph.add_node(b"b.glsl");
    let d = graph.add_node(b"d.glsl");
    let c = graph.add_node(b"c.glsl");
    graph.add_edge(a, b, at(0));
    graph.add_edge(a, c, at(1));
    graph.add_edge(b, d, at(0));
    graph.add_edge(c, d, at(0));
    let visits = graph.dfs(a).unwrap();
    let sources = vec![
        source(a, "#include \"b.glsl\"\n#include \"c.glsl\"\nA\n"),
        source(b, "#include \"d.glsl\"\nB\n"),
        source(c, "#include \"d.glsl\"\nC\n"),
        source(d, "D\n"),
    ];
    let document = generate_merge_list(&visits, &sources, &graph);
    assert_eq!(
        texts(&document),
        vec![
            "#line 1 1",
            "#line 1 2",
            "D",
            "#line 2 1",
            "B",
            "#line 2 0",
            "#line 1 3",
            "#line 1 2",
            "D",
            "#line 2 3",
            "C",
            "#line 3 0",
            "A",
        ]
    );
    assert_eq!(document.markers, vec![a, b, d, c]);
    assert_eq!(document.node_of_marker(2), Some(d));
    assert_eq!(document.node_of_marker(4), None);
}

#[test]
fn no_directive_stands_in_front_of_the_version_line() {
    let (graph, visits) = {
        let mut graph = CachedStableGraph::new();
        let a = graph.add_node(b"a.fsh");
        let b = graph.add_node(b"b.glsl");
        graph.add_edge(a, b, at(0));
        let visits = graph.dfs(a).unwrap();
        (graph, visits)
    };
    let sources = vec![
        source(0, "#include \"b.glsl\"\n#version 330\nx\n"),
        source(1, "void f(){}\n"),
    ];
    let document = generate_merge_list(&visits, &sources, &graph);
    assert_eq!(texts(&document), vec!["void f(){}", "#version 330", "x"]);
    assert_eq!(origins(&document), vec![Some((1, 0)), Some((0, 1)), Some((0, 2))]);
}

#[test]
fn version_line_of_an_included_file_does_not_count() {
    let (graph, visits) = {
        let mut graph = CachedStableGraph::new();
        let a = graph.add_node(b"a.fsh");
        let b = graph.add_node(b"b.glsl");
        graph.add_edge(a, b, at(0));
        let visits = graph.dfs(a).unwrap();
        (graph, visits)
    };
    let sources = vec![source(0, "#include \"b.glsl\"\nx\n"), source(1, "#version 330\n")];
    let document = generate_merge_list(&visits, &sources, &graph);
    assert_eq!(texts(&document), vec!["#line 1 1", "#version 330", "#line 2 0", "x"]);
}

#[test]
fn request_for_the_include_extension_is_left_out() {
    let mut graph = CachedStableGraph::new();
    let a = graph.add_node(b"a.fsh");
    let b = graph.add_node(b"b.glsl");
    graph.add_edge(a, b, at(2));
    let visits = graph.dfs(a).unwrap();
    let sources = vec![
        source(
            a,
            "#version 330\n#extension GL_GOOGLE_include_directive : require\n#include \"b.glsl\"\nx\n",
        ),
        source(b, "#extension GL_GOOGLE_include_directive:require\nB\n"),
    ];
    let document = generate_merge_list(&visits, &sources, &graph);
    assert_eq!(texts(&document), vec!["#version 330", "#line 1 1", "B", "#line 4 0", "x"]);
    assert_eq!(
        origins(&document),
        vec![Some((0, 0)), None, Some((1, 1)), None, Some((0, 3))]
    );
}

#[test]
fn empty_file_leaves_its_two_directives() {
    let (graph, visits) = simple_graph();
    let sources = vec![source(0, "#version 330\n#include \"b.glsl\"\nx\n"), source(1, "")];
    let document = generate_merge_list(&visits, &sources, &graph);
    assert_eq!(texts(&document), vec!["#version 330", "#line 1 1", "#line 3 0", "x"]);
    assert_eq!(document.text(), b"#version 330\n#line 1 1\n#line 3 0\nx\n".to_vec());
}

#[test]
fn file_without_a_source_counts_as_empty() {
    let (graph, visits) = simple_graph();
    let sources = vec![source(0, "#version 330\n#include \"b.glsl\"\nx\n")];
    let document = generate_merge_list(&visits, &sources, &graph);
    assert_eq!(texts(&document), vec!["#version 330", "#line 1 1", "#line 3 0", "x"]);
}

#[test]
fn first_source_of_a_node_counts() {
    let (graph, visits) = simple_graph();
    let sources = vec![source(0, "a\nb\n"), source(1, "first\n"), source(1, "second\n")];
    let document = generate_merge_list(&visits, &sources, &graph);
    assert_eq!(texts(&document), vec!["a", "#line 1 1", "first", "#line 3 0"]);
}

#[test]
fn root_without_a_version_line_is_flattened_as_it_is() {
    let (graph, visits) = simple_graph();
    let sources = vec![source(0, "x\n#include \"b.glsl\"\n"), source(1, "y\n")];
    let document = generate_merge_list(&visits, &sources, &graph);
    assert_eq!(texts(&document), vec!["x", "#line 1 1", "y", "#line 3 0"]);
}

#[test]
fn directive_behind_the_end_of_the_file_is_put_at_the_end() {
    let mut graph = CachedStableGraph::new();
    let a = graph.add_node(b"a.fsh");
    let b = graph.add_node(b"b.glsl");
    graph.add_edge(a, b, at(40));
    let visits = graph.dfs(a).unwrap();
    let sources = vec![source(a, "x\ny\n"), source(b, "B\n")];
    let document = generate_merge_list(&visits, &sources, &graph);
    assert_eq!(texts(&document), vec!["x", "y", "#line 1 1", "B", "#line 4 0"]);
}

#[test]
fn walk_without_visits_gives_an_empty_document() {
    let graph = CachedStableGraph::new();
    let document = generate_merge_list(&Vec::new(), &Vec::new(), &graph);
    assert_eq!(document, MergedDocument { lines: vec![], markers: vec![] });
    assert_eq!(document.text(), Vec::<u8>::new());
}

#[test]
fn lines_are_mapped_to_their_origin_and_back() {
    let (graph, visits) = simple_graph();
    let sources = vec![
        source(0, "#version 330\n#include \"b.glsl\"\nvoid main(){}\n"),
        source(1, "void f(){}\n"),
    ];
    let document = generate_merge_list(&visits, &sources, &graph);
    assert_eq!(document.origin_of(0), Some((0, 0)));
    assert_eq!(document.origin_of(1), None);
    assert_eq!(document.origin_of(2), Some((1, 0)));
    assert_eq!(document.origin_of(4), Some((0, 2)));
    assert_eq!(document.origin_of(5), None);
    assert_eq!(document.line_of_origin(1, 0), Some(2));
    assert_eq!(document.line_of_origin(0, 2), Some(4));
    assert_eq!(document.line_of_origin(0, 1), None);
    assert_eq!(document.line_of_origin(7, 0), None);
}

#[test]
fn plan_holds_markers_lines_and_places() {
    let (graph, visits) = simple_graph();
    let sources = vec![source(0, "a\nb\n"), source(1, "c\r\nd")];
    let plan = make_plan(&visits, &sources, &graph);
    assert_eq!(plan.visits, vec![(0, None), (1, Some(0))]);
    assert_eq!(plan.at, vec![usize::MAX, 1]);
    assert_eq!(plan.marker, vec![0, 1]);
    assert_eq!(plan.markers, vec![0, 1]);
    assert_eq!(
        plan.lines,
        vec![
            vec![b"a".to_vec(), b"b".to_vec()],
            vec![b"c\r".to_vec(), b"d".to_vec()],
        ]
    );
}
