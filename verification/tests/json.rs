use pycallgraph_rs::node::{Flavor, Node};
use pycallgraph_rs::writer::json::{
    build_json_graph, graph_mode_label, node_name_and_namespace, public_kind, JsonGraphMode, JsonOutputOptions,
    PathFormatter,
};
use std::collections::{HashMap, HashSet};

fn node(ns: Option<&str>, name: &str, flavor: Flavor, file: Option<(&str, usize)>) -> Node {
    Node {
        namespace: ns.map(|s| s.to_string()),
        name: name.to_string(),
        flavor,
        filename: file.map(|(f, _)| f.to_string()),
        line: file.map(|(_, l)| l),
    }
}

fn edges(pairs: &[(usize, usize)]) -> HashMap<usize, HashSet<usize>> {
    let mut m: HashMap<usize, HashSet<usize>> = HashMap::new();
    for &(a, b) in pairs {
        m.entry(a).or_default().insert(b);
    }
    m
}

#[test]
fn json_nodes_sorted_and_numbered() {
    let arena = vec![
        node(Some("pkg"), "bar", Flavor::Function, Some(("proj/pkg.py", 10))),
        node(Some("pkg"), "Foo", Flavor::Class, Some(("proj/pkg.py", 1))),
        node(Some("other"), "baz", Flavor::Method, Some(("proj/other.py", 5))),
        node(None, "ext", Flavor::Unknown, None),
        node(Some(""), "pkg", Flavor::Module, Some(("proj/pkg.py", 0))),
    ];
    let defined: HashSet<usize> = [0, 1, 2, 3, 4].into_iter().collect();
    let defines = edges(&[(4, 1), (4, 0), (1, 0), (9, 0)]);
    let uses = edges(&[(1, 0), (0, 2), (2, 3), (0, 7)]);
    let inputs = vec!["proj/pkg.py".to_string(), "proj/other.py".to_string()];
    let options = JsonOutputOptions { graph_mode: JsonGraphMode::Symbol, analysis_root: Some("proj"), inputs: &inputs };
    let g = build_json_graph(&arena, &defined, &defines, &uses, &options, "/work".to_string());

    assert_eq!(g.schema_version, "1");
    assert_eq!(g.graph_mode, "symbol");
    assert_eq!(g.analysis.root, Some("proj".to_string()));
    assert_eq!(g.analysis.inputs, vec!["pkg.py".to_string(), "other.py".to_string()]);
    assert_eq!(g.analysis.node_inclusion_policy, "defined_only");
    assert_eq!(g.analysis.path_kind, "root_relative");

    // Ordered by namespace (none first), then name.
    let names: Vec<&str> = g.nodes.iter().map(|n| n.canonical_name.as_str()).collect();
    assert_eq!(names, vec!["*.ext", "pkg", "other.baz", "pkg.Foo", "pkg.bar"]);
    let ids: Vec<&str> = g.nodes.iter().map(|n| n.id.as_str()).collect();
    assert_eq!(ids, vec!["n1", "n2", "n3", "n4", "n5"]);
    let kinds: Vec<&str> = g.nodes.iter().map(|n| n.kind.as_str()).collect();
    assert_eq!(kinds, vec!["unknown", "module", "method", "class", "function"]);

    let ext = &g.nodes[0];
    assert_eq!(ext.name, "ext");
    assert_eq!(ext.namespace, Some("*".to_string()));
    assert!(ext.location.is_none());
    let module = &g.nodes[1];
    assert_eq!(module.name, "pkg");
    assert_eq!(module.namespace, None);
    let foo = &g.nodes[3];
    assert_eq!(foo.name, "Foo");
    assert_eq!(foo.namespace, Some("pkg".to_string()));
    let loc = foo.location.as_ref().unwrap();
    assert_eq!(loc.path, "pkg.py");
    assert_eq!(loc.line, Some(1));

    // Edges between defined nodes only, ordered by source id, target id, kind.
    let es: Vec<(String, String, String)> =
        g.edges.iter().map(|e| (e.source.clone(), e.target.clone(), e.kind.clone())).collect();
    let want: Vec<(String, String, String)> = [
        ("n2", "n4", "defines"),
        ("n2", "n5", "defines"),
        ("n3", "n1", "uses"),
        ("n4", "n5", "defines"),
        ("n4", "n5", "uses"),
        ("n5", "n3", "uses"),
    ]
    .iter()
    .map(|(a, b, c)| (a.to_string(), b.to_string(), c.to_string()))
    .collect();
    assert_eq!(es, want);

    assert_eq!(g.stats.nodes, 5);
    assert_eq!(g.stats.edges, 6);
    assert_eq!(g.stats.files_analyzed, 2);
    let by_node: Vec<(&str, usize)> = g.stats.by_node_kind.iter().map(|(k, c)| (k.as_str(), *c)).collect();
    assert_eq!(by_node, vec![("class", 1), ("function", 1), ("method", 1), ("module", 1), ("unknown", 1)]);
    let by_edge: Vec<(&str, usize)> = g.stats.by_edge_kind.iter().map(|(k, c)| (k.as_str(), *c)).collect();
    assert_eq!(by_edge, vec![("defines", 3), ("uses", 3)]);
}

#[test]
fn json_ids_sort_as_strings() {
    let arena: Vec<Node> = (0..11).map(|i| node(Some("m"), &format!("f{:02}", i), Flavor::Function, None)).collect();
    let defined: HashSet<usize> = (0..11).collect();
    let uses = edges(&[(0, 10), (0, 1)]);
    let inputs: Vec<String> = vec![];
    let options = JsonOutputOptions { graph_mode: JsonGraphMode::Module, analysis_root: None, inputs: &inputs };
    let g = build_json_graph(&arena, &defined, &HashMap::new(), &uses, &options, "/w".to_string());
    assert_eq!(g.graph_mode, "module");
    assert_eq!(g.analysis.root, None);
    assert_eq!(g.analysis.path_kind, "input_relative");
    let es: Vec<(&str, &str)> = g.edges.iter().map(|e| (e.source.as_str(), e.target.as_str())).collect();
    // "n11" sorts before "n2".
    assert_eq!(es, vec![("n1", "n11"), ("n1", "n2")]);
    let by_edge: Vec<(&str, usize)> = g.stats.by_edge_kind.iter().map(|(k, c)| (k.as_str(), *c)).collect();
    assert_eq!(by_edge, vec![("uses", 2)]);
    assert_eq!(g.stats.files_analyzed, 0);
    let by_node: Vec<(&str, usize)> = g.stats.by_node_kind.iter().map(|(k, c)| (k.as_str(), *c)).collect();
    assert_eq!(by_node, vec![("function", 11)]);
}

#[test]
fn json_empty_graph() {
    let inputs: Vec<String> = vec![];
    let options = JsonOutputOptions { graph_mode: JsonGraphMode::Symbol, analysis_root: None, inputs: &inputs };
    let g = build_json_graph(&[], &HashSet::new(), &HashMap::new(), &HashMap::new(), &options, "/".to_string());
    assert!(g.nodes.is_empty());
    assert!(g.edges.is_empty());
    assert!(g.stats.by_node_kind.is_empty());
    assert!(g.stats.by_edge_kind.is_empty());
}

#[test]
fn paths_relative_to_working_directory() {
    let inputs = vec!["src/a.py".to_string()];
    let f = PathFormatter::new(None, &inputs, "/work".to_string());
    assert_eq!(f.path_kind, "input_relative");
    assert_eq!(f.format_input("src/a.py"), "src/a.py");
    assert_eq!(f.format_location("/work/src/b.py"), "src/b.py");
    assert_eq!(f.format_location("/elsewhere/c.py"), "/elsewhere/c.py");
    assert_eq!(f.display_path("/work"), ".");
    assert_eq!(f.format_analysis_root("."), ".");
    assert_eq!(PathFormatter::resolve_path("/work", "x/y.py"), "/work/x/y.py");
    assert_eq!(PathFormatter::resolve_path("/work", "/abs.py"), "/abs.py");
}

#[test]
fn paths_absolute_when_an_input_is_absolute() {
    let inputs = vec!["rel.py".to_string(), "/abs/q.py".to_string()];
    let f = PathFormatter::new(None, &inputs, "/work".to_string());
    assert_eq!(f.path_kind, "absolute");
    assert_eq!(f.format_input("rel.py"), "/work/rel.py");
    assert_eq!(f.format_graph_path("a\\b"), "a/b");
}

#[test]
fn paths_under_root() {
    let inputs = vec!["/abs/q.py".to_string()];
    let f = PathFormatter::new(Some("proj"), &inputs, "/work".to_string());
    assert_eq!(f.path_kind, "root_relative");
    assert_eq!(f.root, Some("/work/proj".to_string()));
    assert_eq!(f.format_location("proj/sub/m.py"), "sub/m.py");
    assert_eq!(f.format_location("/abs/q.py"), "/abs/q.py");
}

#[test]
fn node_helpers() {
    assert_eq!(graph_mode_label(&JsonGraphMode::Symbol), "symbol");
    assert_eq!(graph_mode_label(&JsonGraphMode::Module), "module");
    let n = node(Some("a.b"), "c", Flavor::StaticMethod, None);
    assert_eq!(public_kind(&n), Some("static_method".to_string()));
    assert_eq!(public_kind(&node(None, "x", Flavor::Attribute, None)), None);
    assert_eq!(public_kind(&node(None, "x", Flavor::ClassMethod, None)), Some("class_method".to_string()));
    assert_eq!(n.get_name(), "a.b.c");
    assert_eq!(node_name_and_namespace(&n, "ignored"), ("c".to_string(), Some("a.b".to_string())));
    let top = node(Some(""), "mod", Flavor::Module, None);
    assert_eq!(top.get_name(), "mod");
    assert_eq!(node_name_and_namespace(&top, "mod"), ("mod".to_string(), None));
    let wild = node(None, "f", Flavor::Unknown, None);
    assert_eq!(wild.get_name(), "*.f");
    assert_eq!(node_name_and_namespace(&wild, "x.y.z"), ("z".to_string(), Some("x.y".to_string())));
}

fn same_report_text(a: &pycallgraph_rs::writer::json::JsonGraph, b: &pycallgraph_rs::writer::json::JsonGraph) -> bool {
    let nodes = |g: &pycallgraph_rs::writer::json::JsonGraph| -> Vec<(String, String, String)> {
        g.nodes.iter().map(|n| (n.id.clone(), n.kind.clone(), n.canonical_name.clone())).collect()
    };
    let edges = |g: &pycallgraph_rs::writer::json::JsonGraph| -> Vec<(String, String, String)> {
        g.edges.iter().map(|e| (e.source.clone(), e.target.clone(), e.kind.clone())).collect()
    };
    nodes(a) == nodes(b)
        && edges(a) == edges(b)
        && a.stats.by_node_kind == b.stats.by_node_kind
        && a.stats.by_edge_kind == b.stats.by_edge_kind
        && a.stats.files_analyzed == b.stats.files_analyzed
}

#[test]
fn json_diagnostics_empty() {
    let arena = vec![node(Some("m"), "f", Flavor::Function, Some(("m.py", 3)))];
    let defined: HashSet<usize> = [0].into_iter().collect();
    let inputs = vec!["m.py".to_string()];
    let options = JsonOutputOptions { graph_mode: JsonGraphMode::Module, analysis_root: None, inputs: &inputs };
    let g = build_json_graph(&arena, &defined, &HashMap::new(), &HashMap::new(), &options, "/w".to_string());
    let d = &g.diagnostics;
    assert!(d.warnings.is_empty());
    assert!(d.unresolved_references.is_empty());
    assert!(d.ambiguous_resolutions.is_empty());
    assert!(d.external_references.is_empty());
    assert!(d.approximations.is_empty());
    assert_eq!(d.summary.warnings, 0);
    assert_eq!(d.summary.unresolved_references, 0);
    assert_eq!(d.summary.ambiguous_resolutions, 0);
    assert_eq!(d.summary.external_references, 0);
    assert_eq!(d.summary.approximations, 0);
}

#[test]
fn json_same_inputs_same_report() {
    let arena = vec![
        node(Some("a"), "x", Flavor::Function, Some(("a.py", 1))),
        node(Some("a"), "y", Flavor::Class, Some(("a.py", 2))),
        node(Some("b"), "z", Flavor::Method, Some(("b.py", 3))),
    ];
    let d1: HashSet<usize> = [2, 0, 1].into_iter().collect();
    let d2: HashSet<usize> = [1, 2, 0].into_iter().collect();
    let uses = edges(&[(0, 1), (1, 2), (2, 0)]);
    let defines = edges(&[(1, 0)]);
    let inputs = vec!["a.py".to_string()];
    let options = JsonOutputOptions { graph_mode: JsonGraphMode::Symbol, analysis_root: None, inputs: &inputs };
    let g1 = build_json_graph(&arena, &d1, &defines, &uses, &options, "/w".to_string());
    let g2 = build_json_graph(&arena, &d2, &defines, &uses, &options, "/w".to_string());
    assert!(same_report_text(&g1, &g2));
}
