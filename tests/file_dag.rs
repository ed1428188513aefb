use topcat::config::Config;
use topcat::exceptions::TopCatError;
use topcat::file_dag::{filter_files, handle_file_node_error, join, TCGraph};
use topcat::exceptions::FileNodeError;

fn strings(items: &[&str]) -> Vec<String> {
    items.iter().map(|s| s.to_string()).collect()
}

fn config(layers: &[&str], fallback: &str) -> Config {
    Config {
        input_dirs: Vec::new(),
        include_globs: None,
        exclude_globs: None,
        include_extensions: None,
        exclude_extensions: None,
        output: "out.sql".to_string(),
        comment_str: "--".to_string(),
        file_separator_str: "---".to_string(),
        file_end_str: ";".to_string(),
        verbose: false,
        dry_run: false,
        include_node_prefixes: None,
        exclude_node_prefixes: None,
        include_hidden: false,
        layers: strings(layers),
        fallback_layer: fallback.to_string(),
        subdir_filter: None,
    }
}

fn file(path: &str, text: &str) -> (String, Vec<String>) {
    (path.to_string(), text.lines().map(|l| l.to_string()).collect())
}

fn abc_files() -> Vec<(String, Vec<String>)> {
    vec![
        file("c.sql", "-- name: c\n-- requires: a, b\nSELECT 3;"),
        file("a.sql", "-- name: a\nSELECT 1;"),
        file("b.sql", "-- name: b\n-- requires: a\nSELECT 2;"),
    ]
}

fn built(cfg: &Config, files: &Vec<(String, Vec<String>)>) -> TCGraph {
    let mut g = TCGraph::new(cfg);
    g.build_graph(files).unwrap();
    g
}

#[test]
fn end_to_end_example() {
    let cfg = config(&["prepend", "normal", "append"], "normal");
    let g = built(&cfg, &abc_files());
    assert_eq!(g.get_sorted_files(&None).unwrap(), strings(&["a.sql", "b.sql", "c.sql"]));
}

#[test]
fn end_to_end_any_enumeration_order() {
    let cfg = config(&["prepend", "normal", "append"], "normal");
    let mut files = abc_files();
    for _ in 0..3 {
        files.rotate_left(1);
        let g = built(&cfg, &files);
        assert_eq!(g.get_sorted_files(&None).unwrap(), strings(&["a.sql", "b.sql", "c.sql"]));
        let mut rev = files.clone();
        rev.reverse();
        let g = built(&cfg, &rev);
        assert_eq!(g.get_sorted_files(&None).unwrap(), strings(&["a.sql", "b.sql", "c.sql"]));
    }
}

#[test]
fn sorted_output_is_idempotent() {
    let cfg = config(&["normal"], "normal");
    let files = vec![
        file("x.sql", "-- name: x"),
        file("y.sql", "-- name: y\n-- requires: x"),
        file("z.sql", "-- name: z"),
        file("w.sql", "-- name: w\n-- requires: z"),
    ];
    let g = built(&cfg, &files);
    let first = g.get_sorted_files(&None).unwrap();
    let second = g.get_sorted_files(&None).unwrap();
    assert_eq!(first, second);
    assert_eq!(first, strings(&["z.sql", "x.sql", "y.sql", "w.sql"]));
}

#[test]
fn layers_are_emitted_in_order() {
    let cfg = config(&["prepend", "normal", "append"], "normal");
    let files = vec![
        file("last.sql", "-- name: last\n-- is_final"),
        file("mid.sql", "-- name: mid\n-- requires: first"),
        file("first.sql", "-- name: first\n-- layer: prepend"),
    ];
    let g = built(&cfg, &files);
    assert_eq!(
        g.get_sorted_files(&None).unwrap(),
        strings(&["first.sql", "mid.sql", "last.sql"])
    );
}

#[test]
fn cross_layer_dependency_is_rejected() {
    let cfg = config(&["first", "second"], "first");
    let files = vec![
        file("n.sql", "-- name: n\n-- layer: first\n-- requires: x"),
        file("x.sql", "-- name: x\n-- layer: second"),
    ];
    let mut g = TCGraph::new(&cfg);
    match g.build_graph(&files) {
        Err(TopCatError::InvalidDependency(name, _)) => assert_eq!(name, "n"),
        other => panic!("unexpected {:?}", other.err()),
    }
    assert!(matches!(g.get_sorted_files(&None), Err(TopCatError::GraphMissing)));
}

#[test]
fn later_layer_may_require_earlier() {
    let cfg = config(&["first", "second"], "first");
    let files = vec![
        file("n.sql", "-- name: n\n-- layer: second\n-- requires: x"),
        file("x.sql", "-- name: x\n-- layer: first"),
    ];
    let g = built(&cfg, &files);
    assert_eq!(g.get_sorted_files(&None).unwrap(), strings(&["x.sql", "n.sql"]));
}

#[test]
fn name_clash_names_both_paths() {
    let cfg = config(&["normal"], "normal");
    let files = vec![file("one/foo.sql", "-- name: foo"), file("two/foo.sql", "-- name: foo")];
    let mut g = TCGraph::new(&cfg);
    match g.build_graph(&files) {
        Err(TopCatError::NameClash(name, p1, p2)) => {
            assert_eq!(name, "foo");
            assert_eq!(p1, "two/foo.sql");
            assert_eq!(p2, "one/foo.sql");
        }
        other => panic!("unexpected {:?}", other.err()),
    }
    assert!(matches!(g.get_sorted_files(&None), Err(TopCatError::GraphMissing)));
}

#[test]
fn two_node_cycle_is_reported() {
    let cfg = config(&["normal"], "normal");
    let files = vec![
        file("a.sql", "-- name: a\n-- requires: b"),
        file("b.sql", "-- name: b\n-- requires: a"),
    ];
    let mut g = TCGraph::new(&cfg);
    match g.build_graph(&files) {
        Err(TopCatError::CyclicDependency(cycles)) => {
            assert_eq!(cycles.len(), 1);
            let cycle = &cycles[0];
            let mut names: Vec<String> = cycle.iter().map(|n| n.name.clone()).collect();
            let edges: Vec<(String, String)> = (0..cycle.len())
                .map(|i| (cycle[i].name.clone(), cycle[(i + 1) % cycle.len()].name.clone()))
                .collect();
            assert_eq!(
                edges,
                vec![("a".to_string(), "b".to_string()), ("b".to_string(), "a".to_string())]
            );
            names.sort();
            assert_eq!(names, strings(&["a", "b"]));
        }
        other => panic!("unexpected {:?}", other.err()),
    }
}

#[test]
fn closure_scopes_output() {
    let cfg = config(&["prepend", "normal", "append"], "normal");
    let mut files = abc_files();
    files.push(file("d.sql", "-- name: d"));
    let g = built(&cfg, &files);
    let selected = Some(strings(&["c"]));
    assert_eq!(g.get_sorted_files(&selected).unwrap(), strings(&["a.sql", "b.sql", "c.sql"]));
    let selected = Some(strings(&["b"]));
    assert_eq!(g.get_sorted_files(&selected).unwrap(), strings(&["a.sql", "b.sql"]));
}

#[test]
fn empty_selection_gives_empty_output() {
    let cfg = config(&["normal"], "normal");
    let g = built(&cfg, &abc_files());
    assert_eq!(g.get_sorted_files(&Some(Vec::new())).unwrap(), Vec::<String>::new());
}

#[test]
fn closure_of_seeds() {
    let cfg = config(&["normal"], "normal");
    let g = built(&cfg, &abc_files());
    let mut req = g.find_required_nodes(&strings(&["c"])).unwrap();
    req.sort();
    assert_eq!(req, strings(&["a", "b", "c"]));
    assert!(matches!(
        g.find_required_nodes(&strings(&["nope"])),
        Err(TopCatError::UnknownError(_))
    ));
}

#[test]
fn read_before_build_is_graph_missing() {
    let cfg = config(&["normal"], "normal");
    let g = TCGraph::new(&cfg);
    assert!(matches!(g.get_sorted_files(&None), Err(TopCatError::GraphMissing)));
    assert!(matches!(g.graph_as_dot("normal"), Err(TopCatError::GraphMissing)));
}

#[test]
fn missing_dependency_is_reported() {
    let cfg = config(&["normal"], "normal");
    let files = vec![file("a.sql", "-- name: a\n-- requires: ghost")];
    let mut g = TCGraph::new(&cfg);
    match g.build_graph(&files) {
        Err(TopCatError::MissingDependency(a, b)) => {
            assert_eq!(a, "a");
            assert_eq!(b, "ghost");
        }
        other => panic!("unexpected {:?}", other.err()),
    }
}

#[test]
fn missing_exist_is_reported() {
    let cfg = config(&["normal"], "normal");
    let files = vec![file("a.sql", "-- name: a\n-- exists: ghost")];
    let mut g = TCGraph::new(&cfg);
    match g.build_graph(&files) {
        Err(TopCatError::MissingExist(a, b)) => {
            assert_eq!(a, "a");
            assert_eq!(b, "ghost");
        }
        other => panic!("unexpected {:?}", other.err()),
    }
}

#[test]
fn exists_does_not_order() {
    let cfg = config(&["normal"], "normal");
    let files = vec![file("a.sql", "-- name: a\n-- exists: b"), file("b.sql", "-- name: b")];
    let g = built(&cfg, &files);
    assert_eq!(g.get_sorted_files(&None).unwrap(), strings(&["b.sql", "a.sql"]));
}

#[test]
fn invalid_header_is_fatal() {
    let cfg = config(&["normal"], "normal");
    let files = vec![file("a.sql", "-- name: a\n-- layer: other")];
    let mut g = TCGraph::new(&cfg);
    match g.build_graph(&files) {
        Err(TopCatError::InvalidFileHeader(p, m)) => {
            assert_eq!(p, "a.sql");
            assert_eq!(m, "Invalid layer 'other' declared");
        }
        other => panic!("unexpected {:?}", other.err()),
    }
}

#[test]
fn file_without_name_is_skipped() {
    let cfg = config(&["normal"], "normal");
    let files = vec![file("a.sql", "-- name: a"), file("plain.sql", "SELECT 1;")];
    let g = built(&cfg, &files);
    assert_eq!(g.get_sorted_files(&None).unwrap(), strings(&["a.sql"]));
}

#[test]
fn prefix_filters() {
    let mut cfg = config(&["normal"], "normal");
    cfg.include_node_prefixes = Some(strings(&["app_", "lib_"]));
    cfg.exclude_node_prefixes = Some(strings(&["lib_x"]));
    let files = vec![
        file("1.sql", "-- name: app_one"),
        file("2.sql", "-- name: lib_two"),
        file("3.sql", "-- name: lib_xtra"),
        file("4.sql", "-- name: other"),
    ];
    let g = built(&cfg, &files);
    assert_eq!(g.get_sorted_files(&None).unwrap(), strings(&["2.sql", "1.sql"]));
}

#[test]
fn empty_include_prefixes_keep_nothing() {
    let mut cfg = config(&["normal"], "normal");
    cfg.include_node_prefixes = Some(Vec::new());
    let g = built(&cfg, &abc_files());
    assert_eq!(g.get_sorted_files(&None).unwrap(), Vec::<String>::new());
}

#[test]
fn dot_export() {
    let cfg = config(&["normal", "append"], "normal");
    let g = built(&cfg, &abc_files());
    let dot = g.graph_as_dot("normal").unwrap();
    assert!(dot.contains("digraph"));
    assert!(dot.contains("label=\"a\""));
    assert!(dot.contains("label=\"c\""));
    assert!(matches!(g.graph_as_dot("nope"), Err(TopCatError::UnknownError(_))));
}

#[test]
fn header_errors_map_to_top_level_errors() {
    assert!(handle_file_node_error(FileNodeError::NoNameDefined("p".to_string())).is_ok());
    match handle_file_node_error(FileNodeError::TooManyNames("p".to_string(), strings(&["a", "b"]))) {
        Err(TopCatError::InvalidFileHeader(p, m)) => {
            assert_eq!(p, "p");
            assert_eq!(m, "Too many names declared: a, b");
        }
        other => panic!("unexpected {:?}", other),
    }
    assert_eq!(join(&strings(&["x", "y", "z"]), "-"), "x-y-z");
    assert_eq!(join(&Vec::new(), "-"), "");
}

#[test]
fn filter_files_by_extension_and_set() {
    let files = strings(&["a/x.sql", "a/y.SQL", "a/z.txt", "a/noext", "b/w.sql"]);
    let kept = filter_files(&files, &None, &None, &Some(strings(&["sql"])), &None);
    assert_eq!(kept, strings(&["a/x.sql", "a/y.SQL", "b/w.sql"]));
    let kept = filter_files(&files, &None, &None, &None, &Some(strings(&["txt"])));
    assert_eq!(kept, strings(&["a/x.sql", "a/y.SQL", "b/w.sql"]));
    let kept = filter_files(&files, &Some(strings(&["a/x.sql", "b/w.sql"])), &Some(strings(&["b/w.sql"])), &None, &None);
    assert_eq!(kept, strings(&["a/x.sql"]));
    let kept = filter_files(&files, &Some(Vec::new()), &None, &Some(Vec::new()), &None);
    assert_eq!(kept, files);
}

#[test]
fn nodes_are_equal_by_name() {
    let a = topcat::file_node::FileNode::new("a".to_string(), "x.sql".to_string(), Vec::new(), "normal".to_string(), Vec::new());
    let b = topcat::file_node::FileNode::new("a".to_string(), "y.sql".to_string(), strings(&["z"]), "append".to_string(), Vec::new());
    let c = topcat::file_node::FileNode::new("c".to_string(), "x.sql".to_string(), Vec::new(), "normal".to_string(), Vec::new());
    assert!(a == b);
    assert!(a != c);
}

#[test]
fn invalid_dependency_names_layer_indices() {
    let cfg = config(&["first", "second"], "first");
    let files = vec![
        file("n.sql", "-- name: n\n-- layer: first\n-- requires: x"),
        file("x.sql", "-- name: x\n-- layer: second"),
    ];
    let mut g = TCGraph::new(&cfg);
    match g.build_graph(&files) {
        Err(TopCatError::InvalidDependency(name, msg)) => {
            assert_eq!(name, "n");
            assert_eq!(msg, "Node in layer 'first' (index 0) cannot depend on node 'x' in layer 'second' (index 1)");
        }
        other => panic!("unexpected {:?}", other.err()),
    }
}

#[test]
fn cycle_report_keeps_paths() {
    let cfg = config(&["normal"], "normal");
    let files = vec![
        file("pb.sql", "-- name: b\n-- requires: a"),
        file("pa.sql", "-- name: a\n-- requires: b"),
        file("pc.sql", "-- name: c\n-- requires: a"),
    ];
    let mut g = TCGraph::new(&cfg);
    match g.build_graph(&files) {
        Err(TopCatError::CyclicDependency(cycles)) => {
            assert_eq!(cycles.len(), 1);
            let pairs: Vec<(String, String)> = cycles[0].iter().map(|n| (n.name.clone(), n.path.clone())).collect();
            assert_eq!(pairs, vec![("a".to_string(), "pa.sql".to_string()), ("b".to_string(), "pb.sql".to_string())]);
        }
        other => panic!("unexpected {:?}", other.err()),
    }
}

#[test]
fn dot_text_is_exact() {
    let cfg = config(&["normal"], "normal");
    let g = built(&cfg, &abc_files());
    let nodes: Vec<String> = g.nodes().iter().map(|n| n.name.clone()).collect();
    assert_eq!(nodes, strings(&["c", "a", "b"]));
    let dot = g.graph_as_dot("normal").unwrap();
    let expected = "digraph {\n    0 [ label=\"c\"]\n    1 [ label=\"a\"]\n    2 [ label=\"b\"]\n    1 -> 0 [ ]\n    2 -> 0 [ ]\n    1 -> 2 [ ]\n}\n";
    assert_eq!(dot, expected);
}

#[test]
fn settings_are_readable() {
    let mut cfg = config(&["normal"], "normal");
    cfg.exclude_node_prefixes = Some(strings(&["tmp_"]));
    let g = TCGraph::new(&cfg);
    assert_eq!(g.comment_str(), "--");
    assert_eq!(g.include_node_prefixes(), &None);
    assert_eq!(g.exclude_node_prefixes(), &Some(strings(&["tmp_"])));
}
