use mcshader_lsp::includes::{find_include, scan_includes};
use mcshader_lsp::IncludePosition;

fn lines_of(text: &[&str]) -> Vec<Option<Vec<u8>>> {
    text.iter().map(|line| Some(line.as_bytes().to_vec())).collect()
}

#[test]
fn include_directive_is_found_with_its_columns() {
    assert_eq!(find_include(b"#include \"b.glsl\""), Some((10, 16)));
    assert_eq!(find_include(b"  #include \"/lib/c.glsl\"\r"), Some((12, 23)));
    assert_eq!(find_include(b"\t#include \"a.glsl\""), Some((11, 17)));
    assert_eq!(find_include(b"#include \"a\"b\""), Some((10, 13)));
    assert_eq!(find_include(b"#include \"x\""), Some((10, 11)));
}

#[test]
fn other_lines_are_no_include_directives() {
    assert_eq!(find_include(b""), None);
    assert_eq!(find_include(b"#include \"\""), None);
    assert_eq!(find_include(b"#include \"a\" // x"), None);
    assert_eq!(find_include(b"//#include \"a\""), None);
    assert_eq!(find_include(b"#include\"a\""), None);
    assert_eq!(find_include(b"#include  \"a\""), None);
    assert_eq!(find_include(b"#include <a>"), None);
    assert_eq!(find_include(b"#include \"a\"\r\r"), None);
    assert_eq!(find_include(b"#include \"a"), None);
    assert_eq!(find_include(b"#include \""), None);
    assert_eq!(find_include(b"void main() {}"), None);
    assert_eq!(find_include(b"x #include \"a\""), None);
}

#[test]
fn scan_resolves_each_include_and_counts_lines_from_zero() {
    let lines = lines_of(&[
        "#version 330",
        "#include \"b.glsl\"",
        "",
        "  #include \"/lib/c.glsl\"",
        "void main() {}",
    ]);
    assert_eq!(
        scan_includes(b"/w", b"/w/shaders/world0/a.fsh", &lines),
        vec![
            (
                b"/w/shaders/world0/b.glsl".to_vec(),
                IncludePosition { line: 1, start: 10, end: 16 }
            ),
            (
                b"/w/shaders/lib/c.glsl".to_vec(),
                IncludePosition { line: 3, start: 12, end: 23 }
            ),
        ]
    );
}

#[test]
fn scan_skips_lines_that_could_not_be_read_but_counts_them() {
    let lines = vec![
        Some(b"#include \"a.glsl\"".to_vec()),
        None,
        Some(b"#include \"b.glsl\"".to_vec()),
    ];
    assert_eq!(
        scan_includes(b"/w", b"/w/shaders/x.vsh", &lines),
        vec![
            (b"/w/shaders/a.glsl".to_vec(), IncludePosition { line: 0, start: 10, end: 16 }),
            (b"/w/shaders/b.glsl".to_vec(), IncludePosition { line: 2, start: 10, end: 16 }),
        ]
    );
}

#[test]
fn scan_of_a_file_without_includes_finds_none() {
    assert_eq!(scan_includes(b"/w", b"/w/shaders/x.vsh", &Vec::new()), Vec::new());
    assert_eq!(
        scan_includes(b"/w", b"/w/shaders/x.vsh", &lines_of(&["#version 120", "void main(){}"])),
        Vec::new()
    );
}
