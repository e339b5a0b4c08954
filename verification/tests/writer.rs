use pycallgraph_rs::visgraph::{VisualEdge, VisualGraph, VisualNode};
use pycallgraph_rs::writer::{write_dot, write_text, write_tgf};

fn node(id: &str, label: &str, group: &str) -> VisualNode {
    VisualNode {
        id: id.to_string(),
        label: label.to_string(),
        fill_color: "#ffffff".to_string(),
        text_color: "#000000".to_string(),
        group: group.to_string(),
    }
}

fn edge(source_idx: usize, target_idx: usize, flavor: &str) -> VisualEdge {
    VisualEdge {
        source_idx,
        target_idx,
        flavor: flavor.to_string(),
        color: "#000000".to_string(),
    }
}

fn graph(nodes: Vec<VisualNode>, edges: Vec<VisualEdge>, subgraphs: Vec<VisualGraph>, grouped: bool) -> VisualGraph {
    VisualGraph {
        id: "G".to_string(),
        label: String::new(),
        nodes,
        edges,
        subgraphs,
        grouped,
    }
}

/// The visual graph of: class `pkg.Foo` (pkg.py:1) defining and using
/// function `pkg.bar` (pkg.py:10), which uses `other.baz` (other.py:5).
fn make_test_graph() -> VisualGraph {
    graph(
        vec![
            node("pkg__Foo", "Foo", "pkg"),
            node("pkg__bar", "bar", "pkg"),
            node("other__baz", "baz", "other"),
        ],
        vec![edge(0, 1, "defines"), edge(0, 1, "uses"), edge(1, 2, "uses")],
        vec![],
        false,
    )
}

#[test]
fn test_dot_output_structure() {
    let g = make_test_graph();
    let dot = write_dot(&g, &["rankdir=TB".to_string()]);
    assert!(dot.starts_with("digraph G {"));
    assert!(dot.contains("rankdir=TB"));
    assert!(dot.contains("style=\"filled\""));
    assert!(dot.ends_with("}\n"));
}

#[test]
fn test_dot_grouped() {
    let a = node("pkg__A", "A", "pkg");
    let b = node("other__B", "B", "other");
    let pkg = graph(vec![node("pkg__A", "A", "pkg")], vec![], vec![], false);
    let other = graph(vec![node("other__B", "B", "other")], vec![], vec![], false);
    let pkg = VisualGraph { id: "pkg".to_string(), label: "pkg".to_string(), ..pkg };
    let other = VisualGraph { id: "other".to_string(), label: "other".to_string(), ..other };
    let g = graph(vec![a, b], vec![], vec![pkg, other], true);
    let dot = write_dot(&g, &[]);
    assert!(dot.contains("subgraph cluster_"));
    assert!(dot.contains("clusterrank=\"local\""));
}

#[test]
fn test_tgf_output() {
    let g = make_test_graph();
    let tgf = write_tgf(&g);
    // Should contain node lines, separator, and edge lines.
    assert!(tgf.contains("#\n"));
    // Nodes are 1-indexed.
    assert!(tgf.contains("1 "));
}

#[test]
fn test_text_output() {
    let g = make_test_graph();
    let text = write_text(&g);
    // Should contain [U] and [D] tags.
    assert!(text.contains("[U]") || text.contains("[D]"));
}

#[test]
fn dot_exact_output() {
    let g = make_test_graph();
    let dot = write_dot(&g, &["rankdir=TB".to_string(), "ranksep=0.5".to_string()]);
    let expected = [
        "digraph G {\n",
        "    graph [rankdir=TB, ranksep=0.5];\n",
        "    pkg__Foo [label=\"Foo\", style=\"filled\", fillcolor=\"#ffffff\", fontcolor=\"#000000\", group=\"pkg\"];\n",
        "    pkg__bar [label=\"bar\", style=\"filled\", fillcolor=\"#ffffff\", fontcolor=\"#000000\", group=\"pkg\"];\n",
        "    other__baz [label=\"baz\", style=\"filled\", fillcolor=\"#ffffff\", fontcolor=\"#000000\", group=\"other\"];\n",
        "    pkg__Foo -> pkg__bar [style=\"dashed\", color=\"#000000\"];\n",
        "    pkg__Foo -> pkg__bar [style=\"solid\", color=\"#000000\"];\n",
        "    pkg__bar -> other__baz [style=\"solid\", color=\"#000000\"];\n",
        "}\n"
    ]
    .concat();
    assert_eq!(dot, expected);
}

#[test]
fn dot_grouped_exact_output() {
    let inner = VisualGraph {
        id: "pkg_sub".to_string(),
        label: "pkg.sub".to_string(),
        ..graph(vec![node("pkg_sub__C", "C", "pkg.sub")], vec![], vec![], false)
    };
    let pkg = VisualGraph {
        id: "pkg".to_string(),
        label: "pkg".to_string(),
        ..graph(vec![node("pkg__A", "A", "pkg")], vec![], vec![inner], false)
    };
    let g = graph(
        vec![node("pkg__A", "A", "pkg"), node("pkg_sub__C", "C", "pkg.sub")],
        vec![edge(0, 1, "uses")],
        vec![pkg],
        true,
    );
    let dot = write_dot(&g, &[]);
    let expected = [
        "digraph G {\n",
        "    graph [clusterrank=\"local\"];\n",
        "    subgraph cluster_pkg {\n",
        "        graph [style=\"filled,rounded\", fillcolor=\"#80808018\", label=\"pkg\"];\n",
        "        pkg__A [label=\"A\", style=\"filled\", fillcolor=\"#ffffff\", fontcolor=\"#000000\", group=\"pkg\"];\n",
        "        subgraph cluster_pkg_sub {\n",
        "            graph [style=\"filled,rounded\", fillcolor=\"#80808018\", label=\"pkg.sub\"];\n",
        "            pkg_sub__C [label=\"C\", style=\"filled\", fillcolor=\"#ffffff\", fontcolor=\"#000000\", group=\"pkg.sub\"];\n",
        "        }\n",
        "    }\n",
        "    pkg__A -> pkg_sub__C [style=\"solid\", color=\"#000000\"];\n",
        "}\n"
    ]
    .concat();
    assert_eq!(dot, expected);
}

#[test]
fn dot_grouped_without_groups_lists_nodes() {
    let g = graph(vec![node("m__f", "f", "m")], vec![], vec![], true);
    let dot = write_dot(&g, &[]);
    assert_eq!(
        dot,
        "digraph G {\n    graph [clusterrank=\"local\"];\n    m__f [label=\"f\", style=\"filled\", fillcolor=\"#ffffff\", fontcolor=\"#000000\", group=\"m\"];\n}\n"
    );
}

#[test]
fn tgf_exact_output() {
    let g = make_test_graph();
    assert_eq!(write_tgf(&g), "1 Foo\n2 bar\n3 baz\n#\n1 2 D\n1 2 U\n2 3 U\n");
}

#[test]
fn tgf_numbers_past_nine() {
    let nodes: Vec<VisualNode> = (0..12).map(|i| node(&format!("n{i}"), &format!("L{i}"), "g")).collect();
    let g = graph(nodes, vec![edge(10, 11, "uses"), edge(11, 0, "other")], vec![], false);
    let tgf = write_tgf(&g);
    assert!(tgf.starts_with("1 L0\n"));
    assert!(tgf.contains("\n12 L11\n#\n"));
    assert!(tgf.ends_with("#\n11 12 U\n12 1 D\n"));
}

#[test]
fn text_exact_output() {
    let g = make_test_graph();
    assert_eq!(write_text(&g), "Foo\n    [D] bar\n    [U] bar\nbar\n    [U] baz\n");
}

#[test]
fn text_sorted_by_source_then_tag_then_target() {
    let g = graph(
        vec![
            node("z", "zeta", "m"),
            node("a", "alpha", "m"),
            node("b", "beta", "m"),
            node("a2", "alpha", "n"),
        ],
        vec![
            edge(0, 2, "uses"),
            edge(0, 1, "uses"),
            edge(1, 0, "uses"),
            edge(0, 2, "defines"),
            edge(3, 2, "defines"),
        ],
        vec![],
        false,
    );
    assert_eq!(
        write_text(&g),
        "alpha\n    [D] beta\n    [U] zeta\nzeta\n    [D] beta\n    [U] alpha\n    [U] beta\n"
    );
}

#[test]
fn text_empty_graph() {
    let g = graph(vec![node("a", "a", "m")], vec![], vec![], false);
    assert_eq!(write_text(&g), "");
    assert_eq!(write_tgf(&g), "1 a\n#\n");
}
