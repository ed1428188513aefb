use topcat::exceptions::{decimal, FileNodeError, TopCatError};
use topcat::file_node::FileNode;

fn node(name: &str, path: &str) -> FileNode {
    FileNode::new(name.to_string(), path.to_string(), Vec::new(), "normal".to_string(), Vec::new())
}

#[test]
fn decimal_numbers() {
    assert_eq!(decimal(0), "0");
    assert_eq!(decimal(7), "7");
    assert_eq!(decimal(10), "10");
    assert_eq!(decimal(1234), "1234");
}

#[test]
fn simple_messages() {
    assert_eq!(TopCatError::GraphMissing.message(), "Graph is None");
    assert_eq!(
        TopCatError::NameClash("foo".to_string(), "a.sql".to_string(), "b.sql".to_string()).message(),
        "Name foo found in both a.sql and b.sql"
    );
    assert_eq!(
        TopCatError::MissingDependency("a".to_string(), "b".to_string()).message(),
        "MissingDependency: a depends on b but it is missing"
    );
    assert_eq!(
        TopCatError::MissingExist("a".to_string(), "b".to_string()).message(),
        "MissingExist: a expects b to exist but it is not found"
    );
    assert_eq!(
        FileNodeError::TooManyNames("x.sql".to_string(), vec!["a".to_string(), "b".to_string()]).message(),
        "Too many names declared in x.sql: a, b"
    );
    assert_eq!(FileNodeError::NoNameDefined("x.sql".to_string()).message(), "No name defined in x.sql");
}

#[test]
fn cycle_message_lists_participants_and_edges() {
    let err = TopCatError::CyclicDependency(vec![vec![node("a", "a.sql"), node("b", "b.sql")]]);
    assert_eq!(
        err.message(),
        "Cyclic dependency detected:\n  Cycle 1:\n    Participants:\n      - a (a.sql)\n      - b (b.sql)\n    Edges:\n      - a -> b\n      - b -> a\n"
    );
}
