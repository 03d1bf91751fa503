use relay::error_parser::ErrorParser;
use relay::orchestrator::Orchestrator;

#[test]
fn test_gcc_format() {
    let parser = ErrorParser::new();
    let errors = parser.parse("src/main.cpp:42:10: error: use of undeclared identifier 'foo'");
    assert_eq!(errors.len(), 1);
    assert_eq!(errors[0].file_path, "src/main.cpp");
    assert_eq!(errors[0].line, 42);
    assert_eq!(errors[0].column, 10);
    assert_eq!(errors[0].message, "use of undeclared identifier 'foo'");
}

#[test]
fn test_msvc_format() {
    let parser = ErrorParser::new();
    let errors = parser.parse(r"src\main.cpp(42): error C2065: 'foo': undeclared identifier");
    assert_eq!(errors.len(), 1);
    assert_eq!(errors[0].file_path, r"src\main.cpp");
    assert_eq!(errors[0].line, 42);
    assert_eq!(errors[0].error_code, "C2065");
}

#[test]
fn test_unity_format() {
    let parser = ErrorParser::new();
    let errors = parser.parse(
        "Assets/Scripts/Player.cs(42,10): error CS0246: The type or namespace 'Health' could not be found",
    );
    assert_eq!(errors.len(), 1);
    assert_eq!(errors[0].file_path, "Assets/Scripts/Player.cs");
    assert_eq!(errors[0].line, 42);
    assert_eq!(errors[0].column, 10);
    assert_eq!(errors[0].error_code, "CS0246");
}

#[test]
fn test_multiline() {
    let parser = ErrorParser::new();
    let output = r#"
src/a.cpp:10:5: error: undeclared 'x'
src/b.cpp:20:3: error: no matching function
src/a.cpp:15:1: warning: unused variable
"#;
    let errors = parser.parse(output);
    assert_eq!(errors.len(), 3);
    assert_eq!(errors[0].file_path, "src/a.cpp");
    assert_eq!(errors[1].file_path, "src/b.cpp");
    assert_eq!(errors[2].file_path, "src/a.cpp");
}

#[test]
fn test_build_graph_from_single_error() {
    let mut orch = Orchestrator::new();
    let graph = orch.build_graph_from_error("src/main.cpp:42:10: error: use of undeclared identifier 'foo'");
    assert_eq!(graph.nodes.len(), 1);
    assert_eq!(graph.nodes[0].file_path, "src/main.cpp");
    assert!(graph.nodes[0].is_error);
}

#[test]
fn test_build_graph_from_multiple_errors() {
    let mut orch = Orchestrator::new();
    let graph =
        orch.build_graph_from_error("src/a.cpp:10:5: error: undeclared 'x'\nsrc/b.cpp:20:3: error: no matching function");
    assert_eq!(graph.nodes.len(), 2);
}

#[test]
fn trims_and_skips_noise() {
    let parser = ErrorParser::new();
    let errors = parser.parse("  \t src/x.c:3:4: warning:   spaced out  \r\nnot a diagnostic\n\n\u{3000}y.c:1:2: error: wide\u{3000}");
    assert_eq!(errors.len(), 2);
    assert_eq!(errors[0].file_path, "src/x.c");
    assert_eq!(errors[0].line, 3);
    assert_eq!(errors[0].column, 4);
    assert_eq!(errors[0].message, "spaced out");
    assert_eq!(errors[0].error_code, "");
    assert_eq!(errors[1].file_path, "y.c");
    assert_eq!(errors[1].message, "wide");
}

#[test]
fn numbers_out_of_range_skip_the_line() {
    let parser = ErrorParser::new();
    assert!(parser.parse("a.c:4294967296:1: error: too far").is_empty());
    let errors = parser.parse("a.c:4294967295:0: error: edge");
    assert_eq!(errors.len(), 1);
    assert_eq!(errors[0].line, 4294967295);
    assert_eq!(errors[0].column, 0);
    // Digits outside ASCII match the pattern but are not a u32.
    assert!(parser.parse("a.c:\u{0664}\u{0662}:1: error: arabic digits").is_empty());
}

#[test]
fn msvc_has_no_column() {
    let parser = ErrorParser::new();
    let errors = parser.parse("lib.cpp(7): warning C4100: unreferenced parameter");
    assert_eq!(errors.len(), 1);
    assert_eq!(errors[0].column, 0);
    assert_eq!(errors[0].message, "unreferenced parameter");
}

#[test]
fn empty_output_parses_to_nothing() {
    let parser = ErrorParser::new();
    assert!(parser.parse("").is_empty());
    let mut orch = Orchestrator::new();
    let g = orch.build_graph_from_error("");
    assert!(g.nodes.is_empty());
    assert_eq!(orch.builder.next_id, 1000);
}

#[test]
fn counter_runs_on_across_batches() {
    let mut orch = Orchestrator::new();
    orch.set_build_dir("build");
    assert_eq!(orch.build_dir, "build");
    let g1 = orch.build_graph_from_error("a.c:1:1: error: one");
    let g2 = orch.build_graph_from_error("b.c:2:2: error: two");
    assert_eq!(g1.nodes[0].id, 0);
    assert_eq!(g2.nodes[0].id, 1001);
}

#[test]
fn unicode_white_space_is_trimmed_and_others_kept() {
    let parser = ErrorParser::new();
    let errors = parser.parse("\u{85}\u{a0}a.c:1:2: error: msg\u{2028}\u{205f}");
    assert_eq!(errors.len(), 1);
    assert_eq!(errors[0].file_path, "a.c");
    assert_eq!(errors[0].message, "msg");
    // U+200B is not white space: it stays in the message.
    let kept = parser.parse("a.c:1:2: error: msg\u{200b}");
    assert_eq!(kept[0].message, "msg\u{200b}");
    for c in ['\u{9}', '\u{d}', ' ', '\u{1680}', '\u{2000}', '\u{200a}', '\u{2029}', '\u{202f}', '\u{3000}'] {
        let line = format!("{}a.c:3:4: error: m{}", c, c);
        let e = parser.parse(&line);
        assert_eq!(e.len(), 1);
        assert_eq!(e[0].message, "m");
    }
}
