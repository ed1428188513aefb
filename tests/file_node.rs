use topcat::exceptions::FileNodeError;
use topcat::file_node::FileNode;

fn lines(text: &str) -> Vec<String> {
    text.lines().map(|l| l.to_string()).collect()
}

fn layers(names: &[&str]) -> Vec<String> {
    names.iter().map(|s| s.to_string()).collect()
}

#[test]
fn test_new_layer_header_format() {
    let layers = layers(&["first", "second", "third"]);
    let content = lines("-- name: test_node\n-- layer: first\nSELECT 1;");
    let file_node = FileNode::from_file("--", "node.sql", &content, &layers, "second").unwrap();
    assert_eq!(file_node.name, "test_node");
    assert_eq!(file_node.layer, "first");
}

#[test]
fn test_backward_compatibility_is_initial() {
    let layers = layers(&["prepend", "normal", "append"]);
    let content = lines("-- name: test_node\n-- is_initial\nSELECT 1;");
    let file_node = FileNode::from_file("--", "node.sql", &content, &layers, "normal").unwrap();
    assert_eq!(file_node.name, "test_node");
    assert_eq!(file_node.layer, "prepend");
}

#[test]
fn test_backward_compatibility_is_final() {
    let layers = layers(&["prepend", "normal", "append"]);
    let content = lines("-- name: test_node\n-- is_final\nSELECT 1;");
    let file_node = FileNode::from_file("--", "node.sql", &content, &layers, "normal").unwrap();
    assert_eq!(file_node.name, "test_node");
    assert_eq!(file_node.layer, "append");
}

#[test]
fn test_fallback_layer() {
    let layers = layers(&["first", "second", "third"]);
    let content = lines("-- name: test_node\nSELECT 1;");
    let file_node = FileNode::from_file("--", "node.sql", &content, &layers, "second").unwrap();
    assert_eq!(file_node.name, "test_node");
    assert_eq!(file_node.layer, "second");
}

#[test]
fn test_invalid_layer_error() {
    let layers = layers(&["first", "second"]);
    let content = lines("-- name: test_node\n-- layer: invalid\nSELECT 1;");
    let result = FileNode::from_file("--", "node.sql", &content, &layers, "first");
    assert!(result.is_err());
    match result.unwrap_err() {
        FileNodeError::InvalidLayer(_, layer) => assert_eq!(layer, "invalid"),
        _ => panic!("Expected InvalidLayer error"),
    }
}

#[test]
fn test_dependencies_parsing() {
    let layers = layers(&["first", "second"]);
    let content = lines(
        "-- name: test_node\n-- layer: first\n-- requires: dep1, dep2\n-- dropped_by: dep3\nSELECT 1;",
    );
    let file_node = FileNode::from_file("--", "node.sql", &content, &layers, "first").unwrap();
    assert_eq!(file_node.name, "test_node");
    assert_eq!(file_node.layer, "first");
    assert!(file_node.deps.contains(&"dep1".to_string()));
    assert!(file_node.deps.contains(&"dep2".to_string()));
    assert!(file_node.deps.contains(&"dep3".to_string()));
    assert_eq!(file_node.deps.len(), 3);
}

#[test]
fn header_is_trimmed_and_lower_cased() {
    let layers = layers(&["normal"]);
    let content = lines("-- NAME:   MyNode   \n-- Requires: Alpha  \nbody");
    let node = FileNode::from_file("--", "a.sql", &content, &layers, "normal").unwrap();
    assert_eq!(node.name, "mynode");
    assert_eq!(node.deps, vec!["alpha".to_string()]);
}

#[test]
fn header_ends_at_first_plain_line() {
    let layers = layers(&["normal"]);
    let content = lines("-- name: a\n\nSELECT 1;\n-- requires: b\n-- name: c");
    let node = FileNode::from_file("--", "a.sql", &content, &layers, "normal").unwrap();
    assert_eq!(node.name, "a");
    assert!(node.deps.is_empty());
}

#[test]
fn empty_lines_stay_in_header() {
    let layers = layers(&["normal"]);
    let content = lines("\n-- name: a\n\n-- requires: b\nSELECT 1;");
    let node = FileNode::from_file("--", "a.sql", &content, &layers, "normal").unwrap();
    assert_eq!(node.name, "a");
    assert_eq!(node.deps, vec!["b".to_string()]);
}

#[test]
fn second_name_is_too_many_names() {
    let layers = layers(&["normal"]);
    let content = lines("-- name: one\n-- name: two\n");
    match FileNode::from_file("--", "x.sql", &content, &layers, "normal") {
        Err(FileNodeError::TooManyNames(path, names)) => {
            assert_eq!(path, "x.sql");
            assert_eq!(names, vec!["one".to_string(), "two".to_string()]);
        }
        other => panic!("unexpected {:?}", other),
    }
}

#[test]
fn missing_name_is_no_name_defined() {
    let layers = layers(&["normal"]);
    let content = lines("-- requires: a\nSELECT 1;");
    match FileNode::from_file("--", "x.sql", &content, &layers, "normal") {
        Err(FileNodeError::NoNameDefined(path)) => assert_eq!(path, "x.sql"),
        other => panic!("unexpected {:?}", other),
    }
}

#[test]
fn exists_directive_fills_ensure_exists() {
    let layers = layers(&["normal"]);
    let content = lines("-- name: a\n-- exists: b c,d\n-- requires: e e");
    let node = FileNode::from_file("--", "x.sql", &content, &layers, "normal").unwrap();
    assert_eq!(node.ensure_exists, vec!["b".to_string(), "c".to_string(), "d".to_string()]);
    assert_eq!(node.deps, vec!["e".to_string()]);
}

#[test]
fn empty_layer_value_keeps_fallback() {
    let layers = layers(&["first", "second"]);
    let content = lines("-- name: a\n-- layer:   ");
    let node = FileNode::from_file("--", "x.sql", &content, &layers, "second").unwrap();
    assert_eq!(node.layer, "second");
}

#[test]
fn other_comment_prefix() {
    let layers = layers(&["normal"]);
    let content = lines("// name: a\n// requires: b\nfn main() {}");
    let node = FileNode::from_file("//", "x.rs", &content, &layers, "normal").unwrap();
    assert_eq!(node.name, "a");
    assert_eq!(node.deps, vec!["b".to_string()]);
}

#[test]
fn split_dependencies_on_space_and_comma() {
    let items = FileNode::split_dependencies(" tomato, potato\torange,,  ");
    assert_eq!(items, vec!["tomato".to_string(), "potato".to_string(), "orange".to_string()]);
    assert!(FileNode::split_dependencies(" , ").is_empty());
}

#[test]
fn split_on_unicode_white_space() {
    let items = FileNode::split_dependencies("a\u{a0}b\u{3000}c\u{2003}d\u{200b}e");
    let expected: Vec<String> = "a\u{a0}b\u{3000}c\u{2003}d\u{200b}e"
        .split(|c: char| c.is_whitespace() || c == ',')
        .filter(|s| !s.is_empty())
        .map(|s| s.to_string())
        .collect();
    assert_eq!(items, expected);
    assert_eq!(items.len(), 4);
}
