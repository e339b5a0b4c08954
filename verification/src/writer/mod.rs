//! Output writers for the visual call graph: DOT (GraphViz), TGF (Trivial
//! Graph Format) and a plain-text dependency list.

pub mod json;

use vstd::prelude::*;
use vstd::string::StringExecFns;
use crate::text::{append_decimal, chars_eq, chars_le, chars_of, decimal, lex_le, triple_le, triple_order, lemma_triple_total_ordering};
use vstd::relations::sorted_by;
use crate::sorting::lemma_sorted_insert;
use crate::visgraph::{max_nesting_depth, nesting_depth, VisualEdge, VisualGraph, VisualNode};

verus! {

// ---------------------------------------------------------------------------
// DOT writer
// ---------------------------------------------------------------------------

/// `level` steps of four-space indentation.
pub open spec fn indentation(level: nat) -> Seq<char>
    decreases level,
{
    if level == 0 {
        Seq::empty()
    } else {
        indentation((level - 1) as nat) + "    "@
    }
}

/// The DOT line of a node.
pub open spec fn dot_node_line(n: VisualNode, level: nat) -> Seq<char> {
    indentation(level) + n.id@ + " [label=\""@ + n.label@ + "\", style=\"filled\", fillcolor=\""@
        + n.fill_color@ + "\", fontcolor=\""@ + n.text_color@ + "\", group=\""@ + n.group@
        + "\"];\n"@
}

/// The DOT lines of a list of nodes.
pub open spec fn dot_node_lines(ns: Seq<VisualNode>, level: nat) -> Seq<char>
    decreases ns.len(),
{
    if ns.len() == 0 {
        Seq::empty()
    } else {
        dot_node_lines(ns.drop_last(), level) + dot_node_line(ns.last(), level)
    }
}

/// The DOT text of a group: a cluster holding its nodes and, nested one
/// level deeper, its own groups.
pub open spec fn dot_subgraph(sg: VisualGraph, level: nat) -> Seq<char>
    decreases sg,
{
    indentation(level) + "subgraph cluster_"@ + sg.id@ + " {\n"@ + indentation(level + 1)
        + "graph [style=\"filled,rounded\", fillcolor=\"#80808018\", label=\""@ + sg.label@
        + "\"];\n"@ + dot_node_lines(sg.nodes@, level + 1) + dot_subgraphs(
        sg.subgraphs@,
        level + 1,
    ) + indentation(level) + "}\n"@
}

/// The DOT text of a list of groups.
pub open spec fn dot_subgraphs(gs: Seq<VisualGraph>, level: nat) -> Seq<char>
    decreases gs,
{
    if gs.len() == 0 {
        Seq::empty()
    } else {
        dot_subgraphs(gs.drop_last(), level) + dot_subgraph(gs.last(), level)
    }
}

/// The DOT line style of an edge: dashed for `defines`, solid otherwise.
pub open spec fn edge_style(e: VisualEdge) -> Seq<char> {
    if e.flavor@ == "defines"@ {
        "dashed"@
    } else {
        "solid"@
    }
}

/// The DOT line of an edge, between the ids of its end nodes.
pub open spec fn dot_edge_line(nodes: Seq<VisualNode>, e: VisualEdge) -> Seq<char> {
    "    "@ + nodes[e.source_idx as int].id@ + " -> "@ + nodes[e.target_idx as int].id@
        + " [style=\""@ + edge_style(e) + "\", color=\""@ + e.color@ + "\"];\n"@
}

/// The DOT lines of a list of edges.
pub open spec fn dot_edge_lines(nodes: Seq<VisualNode>, es: Seq<VisualEdge>) -> Seq<char>
    decreases es.len(),
{
    if es.len() == 0 {
        Seq::empty()
    } else {
        dot_edge_lines(nodes, es.drop_last()) + dot_edge_line(nodes, es.last())
    }
}

/// Strings joined with `sep` between each two.
pub open spec fn join_with(ss: Seq<Seq<char>>, sep: Seq<char>) -> Seq<char>
    decreases ss.len(),
{
    if ss.len() == 0 {
        Seq::empty()
    } else if ss.len() == 1 {
        ss[0]
    } else {
        join_with(ss.drop_last(), sep) + sep + ss.last()
    }
}

/// The graph attributes: the given options, and for a grouped graph
/// `clusterrank="local"` after them.
pub open spec fn dot_options(graph: VisualGraph, options: Seq<String>) -> Seq<Seq<char>> {
    let given = options.map_values(|s: String| s@);
    if graph.grouped {
        given.push("clusterrank=\"local\""@)
    } else {
        given
    }
}

/// The DOT text of a graph: the header with the graph attributes, then its
/// groups when it is grouped and has any, else all its nodes, then all its
/// edges, then the closing brace.
pub open spec fn dot_text(graph: VisualGraph, options: Seq<String>) -> Seq<char> {
    "digraph G {\n"@ + "    graph ["@ + join_with(dot_options(graph, options), ", "@) + "];\n"@ + (
    if graph.grouped && graph.subgraphs@.len() > 0 {
        dot_subgraphs(graph.subgraphs@, 1)
    } else {
        dot_node_lines(graph.nodes@, 1)
    }) + dot_edge_lines(graph.nodes@, graph.edges@) + "}\n"@
}

/// `level` steps of four-space indentation.
fn indent(level: usize) -> (r: String)
    ensures
        r@ == indentation(level as nat),
{
    let mut out = String::new();
    let mut i: usize = 0;
    while i < level
        invariant
            i <= level,
            out@ == indentation(i as nat),
        decreases level - i,
    {
        out.append("    ");
        i = i + 1;
    }
    out
}

fn write_dot_node(out: &mut String, node: &VisualNode, level: usize)
    ensures
        final(out)@ == old(out)@ + dot_node_line(*node, level as nat),
{
    let pad = indent(level);
    out.append(pad.as_str());
    out.append(node.id.as_str());
    out.append(" [label=\"");
    out.append(node.label.as_str());
    out.append("\", style=\"filled\", fillcolor=\"");
    out.append(node.fill_color.as_str());
    out.append("\", fontcolor=\"");
    out.append(node.text_color.as_str());
    out.append("\", group=\"");
    out.append(node.group.as_str());
    out.append("\"];\n");
    assert(out@ =~= old(out)@ + dot_node_line(*node, level as nat));
}

fn write_dot_nodes(out: &mut String, nodes: &Vec<VisualNode>, level: usize)
    ensures
        final(out)@ == old(out)@ + dot_node_lines(nodes@, level as nat),
{
    let mut i: usize = 0;
    assert(out@ =~= old(out)@ + dot_node_lines(nodes@.take(0), level as nat));
    while i < nodes.len()
        invariant
            i <= nodes@.len(),
            out@ == old(out)@ + dot_node_lines(nodes@.take(i as int), level as nat),
        decreases nodes@.len() - i,
    {
        write_dot_node(out, &nodes[i], level);
        assert(nodes@.take(i + 1).drop_last() =~= nodes@.take(i as int));
        assert(out@ =~= old(out)@ + dot_node_lines(nodes@.take(i + 1), level as nat));
        i = i + 1;
    }
    assert(nodes@.take(i as int) =~= nodes@);
}

fn write_dot_subgraph(out: &mut String, sg: &VisualGraph, level: usize)
    requires
        level + nesting_depth(*sg) < usize::MAX,
    ensures
        final(out)@ == old(out)@ + dot_subgraph(*sg, level as nat),
    decreases sg,
{
    let pad = indent(level);
    out.append(pad.as_str());
    out.append("subgraph cluster_");
    out.append(sg.id.as_str());
    out.append(" {\n");
    let inner = indent(level + 1);
    out.append(inner.as_str());
    out.append("graph [style=\"filled,rounded\", fillcolor=\"#80808018\", label=\"");
    out.append(sg.label.as_str());
    out.append("\"];\n");
    let ghost head = out@;
    write_dot_nodes(out, &sg.nodes, level + 1);
    write_dot_subgraphs(out, &sg.subgraphs, level + 1);
    out.append(pad.as_str());
    out.append("}\n");
    assert(out@ =~= old(out)@ + dot_subgraph(*sg, level as nat));
}

fn write_dot_subgraphs(out: &mut String, gs: &Vec<VisualGraph>, level: usize)
    requires
        level + max_nesting_depth(gs@) < usize::MAX,
    ensures
        final(out)@ == old(out)@ + dot_subgraphs(gs@, level as nat),
    decreases gs@,
{
    let mut i: usize = 0;
    assert(out@ =~= old(out)@ + dot_subgraphs(gs@.take(0), level as nat));
    while i < gs.len()
        invariant
            i <= gs@.len(),
            level + max_nesting_depth(gs@) < usize::MAX,
            out@ == old(out)@ + dot_subgraphs(gs@.take(i as int), level as nat),
        decreases gs@.len() - i,
    {
        proof {
            lemma_nesting_depth_bound(gs@, i as int);
        }
        write_dot_subgraph(out, &gs[i], level);
        assert(gs@.take(i + 1).drop_last() =~= gs@.take(i as int));
        assert(out@ =~= old(out)@ + dot_subgraphs(gs@.take(i + 1), level as nat));
        i = i + 1;
    }
    assert(gs@.take(i as int) =~= gs@);
}

/// Each group of a list nests no deeper than the deepest of the list.
proof fn lemma_nesting_depth_bound(gs: Seq<VisualGraph>, i: int)
    requires
        0 <= i < gs.len(),
    ensures
        nesting_depth(gs[i]) <= max_nesting_depth(gs),
    decreases gs.len(),
{
    if i < gs.len() - 1 {
        lemma_nesting_depth_bound(gs.drop_last(), i);
    }
}

/// Render the visual graph in GraphViz DOT format.
///
/// `options` is a list of extra top-level graph attributes (e.g.
/// `rankdir=LR`).  When the graph is grouped, `clusterrank="local"` is
/// appended automatically.
pub fn write_dot(graph: &VisualGraph, options: &[String]) -> (r: String)
    requires
        graph.edges_in_range(),
        nesting_depth(*graph) < usize::MAX,
    ensures
        r@ == dot_text(*graph, options@),
{
    let mut out = String::new();

    let mut opts: Vec<String> = Vec::new();
    let mut i: usize = 0;
    while i < options.len()
        invariant
            i <= options@.len(),
            opts@.len() == i,
            forall|j: int| 0 <= j < i ==> (#[trigger] opts@[j])@ == options@[j]@,
        decreases options@.len() - i,
    {
        let ghost before = opts@;
        let item = options[i].clone();
        assert(item@ == options@[i as int]@);
        opts.push(item);
        i = i + 1;
    }
    if graph.grouped {
        opts.push("clusterrank=\"local\"".to_owned());
    }
    assert(opts@.map_values(|s: String| s@) =~= dot_options(*graph, options@));
    let opts_str = join_strings(&opts, ", ");

    out.append("digraph G {\n");
    out.append("    graph [");
    out.append(opts_str.as_str());
    out.append("];\n");
    let ghost head = out@;

    if graph.grouped && graph.subgraphs.len() > 0 {
        write_dot_subgraphs(&mut out, &graph.subgraphs, 1);
    } else {
        write_dot_nodes(&mut out, &graph.nodes, 1);
    }
    let ghost body = out@;

    let defines = "defines".to_owned();
    let mut k: usize = 0;
    assert(out@ =~= body + dot_edge_lines(graph.nodes@, graph.edges@.take(0)));
    while k < graph.edges.len()
        invariant
            k <= graph.edges@.len(),
            graph.edges_in_range(),
            defines@ == "defines"@,
            out@ == body + dot_edge_lines(graph.nodes@, graph.edges@.take(k as int)),
        decreases graph.edges@.len() - k,
    {
        let edge = &graph.edges[k];
        let src = &graph.nodes[edge.source_idx];
        let tgt = &graph.nodes[edge.target_idx];
        let style = if edge.flavor == defines {
            "dashed"
        } else {
            "solid"
        };
        out.append("    ");
        out.append(src.id.as_str());
        out.append(" -> ");
        out.append(tgt.id.as_str());
        out.append(" [style=\"");
        out.append(style);
        out.append("\", color=\"");
        out.append(edge.color.as_str());
        out.append("\"];\n");
        assert(graph.edges@.take(k + 1).drop_last() =~= graph.edges@.take(k as int));
        assert(out@ =~= body + dot_edge_lines(graph.nodes@, graph.edges@.take(k + 1)));
        k = k + 1;
    }
    assert(graph.edges@.take(k as int) =~= graph.edges@);

    out.append("}\n");
    assert(out@ =~= dot_text(*graph, options@));
    out
}

/// Strings joined with `sep` between each two.
fn join_strings(ss: &Vec<String>, sep: &str) -> (r: String)
    ensures
        r@ == join_with(ss@.map_values(|s: String| s@), sep@),
{
    let ghost views = ss@.map_values(|s: String| s@);
    let mut out = String::new();
    let mut i: usize = 0;
    while i < ss.len()
        invariant
            i <= ss@.len(),
            views == ss@.map_values(|s: String| s@),
            out@ == join_with(views.take(i as int), sep@),
        decreases ss@.len() - i,
    {
        assert(views.take(i + 1).drop_last() =~= views.take(i as int));
        if i > 0 {
            out.append(sep);
        }
        out.append(ss[i].as_str());
        proof {
            if i == 0 {
                assert(out@ =~= views.take(1)[0]);
            } else {
                assert(out@ =~= join_with(views.take(i as int), sep@) + sep@ + views.take(i + 1).last());
            }
        }
        i = i + 1;
    }
    assert(views.take(i as int) =~= views);
    out
}

// ---------------------------------------------------------------------------
// TGF writer
// ---------------------------------------------------------------------------

/// The TGF lines of a list of nodes, numbered from 1 in list order.
pub open spec fn tgf_node_lines(ns: Seq<VisualNode>) -> Seq<char>
    decreases ns.len(),
{
    if ns.len() == 0 {
        Seq::empty()
    } else {
        tgf_node_lines(ns.drop_last()) + decimal(ns.len()) + " "@ + ns.last().label@ + "\n"@
    }
}

/// The TGF tag of an edge: `U` for `uses`, `D` otherwise.
pub open spec fn tgf_tag(e: VisualEdge) -> Seq<char> {
    if e.flavor@ == "uses"@ {
        "U"@
    } else {
        "D"@
    }
}

/// The TGF line of an edge, between the 1-based numbers of its ends.
pub open spec fn tgf_edge_line(e: VisualEdge) -> Seq<char> {
    decimal(e.source_idx as nat + 1) + " "@ + decimal(e.target_idx as nat + 1) + " "@ + tgf_tag(e)
        + "\n"@
}

/// The TGF lines of a list of edges.
pub open spec fn tgf_edge_lines(es: Seq<VisualEdge>) -> Seq<char>
    decreases es.len(),
{
    if es.len() == 0 {
        Seq::empty()
    } else {
        tgf_edge_lines(es.drop_last()) + tgf_edge_line(es.last())
    }
}

/// The TGF text of a graph: its nodes, the `#` separator, its edges.
pub open spec fn tgf_text(graph: VisualGraph) -> Seq<char> {
    tgf_node_lines(graph.nodes@) + "#\n"@ + tgf_edge_lines(graph.edges@)
}

/// Render the visual graph in Trivial Graph Format.
///
/// Nodes are numbered sequentially starting at 1.
#[verifier::spinoff_prover]
pub fn write_tgf(graph: &VisualGraph) -> (r: String)
    requires
        forall|i: int| 0 <= i < graph.edges@.len() ==> {
            &&& (#[trigger] graph.edges@[i]).source_idx < usize::MAX
            &&& graph.edges@[i].target_idx < usize::MAX
        },
    ensures
        r@ == tgf_text(*graph),
{
    let mut out = String::new();
    let mut i: usize = 0;
    assert(out@ =~= tgf_node_lines(graph.nodes@.take(0)));
    while i < graph.nodes.len()
        invariant
            i <= graph.nodes@.len(),
            out@ == tgf_node_lines(graph.nodes@.take(i as int)),
        decreases graph.nodes@.len() - i,
    {
        append_decimal(&mut out, i + 1);
        out.append(" ");
        out.append(graph.nodes[i].label.as_str());
        out.append("\n");
        assert(graph.nodes@.take(i + 1).drop_last() =~= graph.nodes@.take(i as int));
        assert(out@ =~= tgf_node_lines(graph.nodes@.take(i + 1)));
        i = i + 1;
    }
    assert(graph.nodes@.take(i as int) =~= graph.nodes@);

    out.append("#\n");
    let ghost head = out@;

    let uses = "uses".to_owned();
    let mut k: usize = 0;
    assert(out@ =~= head + tgf_edge_lines(graph.edges@.take(0)));
    while k < graph.edges.len()
        invariant
            k <= graph.edges@.len(),
            uses@ == "uses"@,
            forall|i: int| 0 <= i < graph.edges@.len() ==> {
                &&& (#[trigger] graph.edges@[i]).source_idx < usize::MAX
                &&& graph.edges@[i].target_idx < usize::MAX
            },
            out@ == head + tgf_edge_lines(graph.edges@.take(k as int)),
        decreases graph.edges@.len() - k,
    {
        let edge = &graph.edges[k];
        let tag = if edge.flavor == uses {
            "U"
        } else {
            "D"
        };
        append_decimal(&mut out, edge.source_idx + 1);
        out.append(" ");
        append_decimal(&mut out, edge.target_idx + 1);
        out.append(" ");
        out.append(tag);
        out.append("\n");
        assert(graph.edges@.take(k + 1).drop_last() =~= graph.edges@.take(k as int));
        assert(out@ =~= head + tgf_edge_lines(graph.edges@.take(k + 1)));
        k = k + 1;
    }
    assert(graph.edges@.take(k as int) =~= graph.edges@);
    assert(out@ =~= tgf_text(*graph));
    out
}

// ---------------------------------------------------------------------------
// Text writer
// ---------------------------------------------------------------------------

/// The text tag of an edge: `D` for `defines`, `U` otherwise.
pub open spec fn text_tag(e: VisualEdge) -> Seq<char> {
    if e.flavor@ == "defines"@ {
        "D"@
    } else {
        "U"@
    }
}

/// What the text listing shows of an edge: its source's label, its tag and
/// its target's label.
pub open spec fn text_key(nodes: Seq<VisualNode>, e: VisualEdge) -> (Seq<char>, Seq<char>, Seq<char>) {
    (nodes[e.source_idx as int].label@, text_tag(e), nodes[e.target_idx as int].label@)
}

/// The listing entries of a list of edges, in list order.
pub open spec fn text_keys(nodes: Seq<VisualNode>, es: Seq<VisualEdge>) -> Seq<(Seq<char>, Seq<char>, Seq<char>)> {
    es.map_values(|e: VisualEdge| text_key(nodes, e))
}

/// The listing of sorted entries: a source label on its own line before
/// the first entry it starts, then one indented `[tag] target` line per
/// entry.
pub open spec fn render_text(ts: Seq<(Seq<char>, Seq<char>, Seq<char>)>) -> Seq<char>
    decreases ts.len(),
{
    if ts.len() == 0 {
        Seq::empty()
    } else {
        let t = ts.last();
        let header = if ts.len() == 1 || ts[ts.len() - 2].0 != t.0 {
            t.0 + "\n"@
        } else {
            Seq::empty()
        };
        render_text(ts.drop_last()) + header + "    ["@ + t.1 + "] "@ + t.2 + "\n"@
    }
}

/// The text listing of a graph: each source label once, in code-point
/// order, each followed by its outgoing edges ordered by tag, then by
/// target label.
pub open spec fn text_output(graph: VisualGraph) -> Seq<char> {
    render_text(text_keys(graph.nodes@, graph.edges@).sort_by(triple_order()))
}

/// The labels of the nodes, as character vectors.
fn node_label_chars(nodes: &Vec<VisualNode>) -> (r: Vec<Vec<char>>)
    ensures
        r@.len() == nodes@.len(),
        forall|i: int| 0 <= i < nodes@.len() ==> (#[trigger] r@[i])@ == nodes@[i].label@,
{
    let mut r: Vec<Vec<char>> = Vec::new();
    let mut i: usize = 0;
    while i < nodes.len()
        invariant
            i <= nodes@.len(),
            r@.len() == i,
            forall|j: int| 0 <= j < i ==> (#[trigger] r@[j])@ == nodes@[j].label@,
        decreases nodes@.len() - i,
    {
        r.push(chars_of(nodes[i].label.as_str()));
        i = i + 1;
    }
    r
}

/// The graph's labels and edge tags, ready for comparing entries.
pub open spec fn text_tables_ok(graph: VisualGraph, labels: Seq<Vec<char>>, is_def: Seq<bool>) -> bool {
    &&& graph.edges_in_range()
    &&& labels.len() == graph.nodes@.len()
    &&& forall|i: int| 0 <= i < labels.len() ==> (#[trigger] labels[i])@ == graph.nodes@[i].label@
    &&& is_def.len() == graph.edges@.len()
    &&& forall|i: int| 0 <= i < is_def.len() ==> (#[trigger] is_def[i]) == (graph.edges@[i].flavor@
        == "defines"@)
}

/// Whether the entry of edge `a` comes no later than that of edge `b`.
fn entry_le(graph: &VisualGraph, labels: &Vec<Vec<char>>, is_def: &Vec<bool>, a: usize, b: usize) -> (r: bool)
    requires
        text_tables_ok(*graph, labels@, is_def@),
        a < graph.edges@.len(),
        b < graph.edges@.len(),
    ensures
        r == triple_le(
            text_key(graph.nodes@, graph.edges@[a as int]),
            text_key(graph.nodes@, graph.edges@[b as int]),
        ),
{
    let ea = &graph.edges[a];
    let eb = &graph.edges[b];
    let sa = &labels[ea.source_idx];
    let sb = &labels[eb.source_idx];
    if !chars_eq(sa, sb) {
        return chars_le(sa, sb);
    }
    proof {
        reveal_strlit("D");
        reveal_strlit("U");
        assert("D"@ != "U"@) by {
            assert("D"@[0] != "U"@[0]);
        }
        assert(lex_le("D"@, "U"@)) by {
            assert("D"@[0] == 'D');
        }
    }
    if is_def[a] != is_def[b] {
        return is_def[a];
    }
    chars_le(&labels[ea.target_idx], &labels[eb.target_idx])
}

/// Render the visual graph as a plain-text dependency list.
///
/// Each source node is printed on its own line, followed by its outgoing
/// edges indented with `[D]` (defines) or `[U]` (uses) tags.  Output is
/// sorted alphabetically by source label, then by (tag, target label).
pub fn write_text(graph: &VisualGraph) -> (r: String)
    requires
        graph.edges_in_range(),
    ensures
        r@ == text_output(*graph),
{
    let labels = node_label_chars(&graph.nodes);
    let defines = "defines".to_owned();
    let mut is_def: Vec<bool> = Vec::new();
    let mut k: usize = 0;
    while k < graph.edges.len()
        invariant
            k <= graph.edges@.len(),
            defines@ == "defines"@,
            is_def@.len() == k,
            forall|i: int| 0 <= i < k ==> (#[trigger] is_def@[i]) == (graph.edges@[i].flavor@ == "defines"@),
        decreases graph.edges@.len() - k,
    {
        is_def.push(graph.edges[k].flavor == defines);
        k = k + 1;
    }
    let ghost nodes = graph.nodes@;
    let ghost edges = graph.edges@;
    let ghost all_keys = text_keys(nodes, edges);

    // Insertion sort of the edges by their entries.
    let mut sorted: Vec<usize> = Vec::new();
    let mut i: usize = 0;
    proof {
        lemma_triple_total_ordering();
        assert(sorted@.map_values(|e: usize| text_key(nodes, edges[e as int])) =~= Seq::empty());
        assert(all_keys.take(0) =~= Seq::empty());
    }
    while i < graph.edges.len()
        invariant
            i <= edges.len(),
            nodes == graph.nodes@,
            edges == graph.edges@,
            all_keys == text_keys(nodes, edges),
            text_tables_ok(*graph, labels@, is_def@),
            vstd::relations::total_ordering(triple_order()),
            forall|j: int| 0 <= j < sorted@.len() ==> (#[trigger] sorted@[j]) < edges.len(),
            sorted_by(sorted@.map_values(|e: usize| text_key(nodes, edges[e as int])), triple_order()),
            sorted@.map_values(|e: usize| text_key(nodes, edges[e as int])).to_multiset()
                == all_keys.take(i as int).to_multiset(),
        decreases edges.len() - i,
    {
        let ghost ks = sorted@.map_values(|e: usize| text_key(nodes, edges[e as int]));
        let ghost x = text_key(nodes, edges[i as int]);
        let mut p: usize = 0;
        while p < sorted.len() && entry_le(graph, &labels, &is_def, sorted[p], i)
            invariant
                p <= sorted@.len(),
                i < edges.len(),
                nodes == graph.nodes@,
                edges == graph.edges@,
                text_tables_ok(*graph, labels@, is_def@),
                forall|j: int| 0 <= j < sorted@.len() ==> (#[trigger] sorted@[j]) < edges.len(),
                ks == sorted@.map_values(|e: usize| text_key(nodes, edges[e as int])),
                x == text_key(nodes, edges[i as int]),
                forall|j: int| 0 <= j < p ==> triple_le(#[trigger] ks[j], x),
            decreases sorted@.len() - p,
        {
            p = p + 1;
        }
        let ghost old_sorted = sorted@;
        sorted.insert(p, i);
        proof {
            let ks2 = sorted@.map_values(|e: usize| text_key(nodes, edges[e as int]));
            assert(ks2 =~= ks.insert(p as int, x));
            if p < ks.len() {
                assert(triple_order()(ks[p as int], x) || triple_order()(x, ks[p as int]));
            }
            lemma_sorted_insert(ks, p as int, x, triple_order());
            assert(all_keys.take(i + 1) =~= all_keys.take(i as int).push(x));
            broadcast use vstd::seq_lib::group_to_multiset_ensures;
            assert(ks2.to_multiset() == ks.to_multiset().insert(x));
            assert(all_keys.take(i + 1).to_multiset() == all_keys.take(i as int).to_multiset().insert(x));
        }
        i = i + 1;
    }
    let ghost ks = sorted@.map_values(|e: usize| text_key(nodes, edges[e as int]));
    proof {
        assert(all_keys.take(i as int) =~= all_keys);
        all_keys.lemma_sort_by_ensures(triple_order());
        vstd::seq_lib::lemma_sorted_unique(ks, all_keys.sort_by(triple_order()), triple_order());
    }

    // Emit the sorted entries.
    let mut out = String::new();
    let mut q: usize = 0;
    while q < sorted.len()
        invariant
            q <= sorted@.len(),
            nodes == graph.nodes@,
            edges == graph.edges@,
            text_tables_ok(*graph, labels@, is_def@),
            forall|j: int| 0 <= j < sorted@.len() ==> (#[trigger] sorted@[j]) < edges.len(),
            ks == sorted@.map_values(|e: usize| text_key(nodes, edges[e as int])),
            out@ == render_text(ks.take(q as int)),
        decreases sorted@.len() - q,
    {
        let e = sorted[q];
        let edge = &graph.edges[e];
        let starts_group = if q == 0 {
            true
        } else {
            let prev = &graph.edges[sorted[q - 1]];
            !chars_eq(&labels[prev.source_idx], &labels[edge.source_idx])
        };
        if starts_group {
            out.append(graph.nodes[edge.source_idx].label.as_str());
            out.append("\n");
        }
        out.append("    [");
        out.append(if is_def[e] {
            "D"
        } else {
            "U"
        });
        out.append("] ");
        out.append(graph.nodes[edge.target_idx].label.as_str());
        out.append("\n");
        proof {
            let t = ks.take(q + 1);
            assert(t.drop_last() =~= ks.take(q as int));
            assert(t.last() == ks[q as int]);
            if q > 0 {
                assert(t[t.len() - 2] == ks[q - 1]);
            }
            assert(out@ =~= render_text(t));
        }
        q = q + 1;
    }
    assert(ks.take(q as int) =~= ks);
    out
}

// ---------------------------------------------------------------------------
// Laws
// ---------------------------------------------------------------------------

/// The text listing does not depend on the order of the edges: two edge
/// lists with the same entries give the same listing.
pub proof fn law_text_ignores_edge_order(nodes: Seq<VisualNode>, es1: Seq<VisualEdge>, es2: Seq<VisualEdge>)
    requires
        text_keys(nodes, es1).to_multiset() == text_keys(nodes, es2).to_multiset(),
    ensures
        render_text(text_keys(nodes, es1).sort_by(triple_order())) == render_text(
            text_keys(nodes, es2).sort_by(triple_order()),
        ),
{
    lemma_triple_total_ordering();
    text_keys(nodes, es1).lemma_sort_by_ensures(triple_order());
    text_keys(nodes, es2).lemma_sort_by_ensures(triple_order());
    vstd::seq_lib::lemma_sorted_unique(
        text_keys(nodes, es1).sort_by(triple_order()),
        text_keys(nodes, es2).sort_by(triple_order()),
        triple_order(),
    );
}

/// The text listing shows every edge's entry exactly as often as the edge
/// list holds it, ordered by source label, then tag, then target label.
pub proof fn law_text_entries_sorted(nodes: Seq<VisualNode>, es: Seq<VisualEdge>)
    ensures
        sorted_by(text_keys(nodes, es).sort_by(triple_order()), triple_order()),
        text_keys(nodes, es).sort_by(triple_order()).to_multiset() == text_keys(nodes, es).to_multiset(),
{
    lemma_triple_total_ordering();
    text_keys(nodes, es).lemma_sort_by_ensures(triple_order());
}

/// A grouped graph's DOT attributes end with `clusterrank="local"`; an
/// ungrouped graph's are exactly the given options.
pub proof fn law_dot_cluster_rank(graph: VisualGraph, options: Seq<String>)
    ensures
        graph.grouped ==> dot_options(graph, options).last() == "clusterrank=\"local\""@ && dot_options(
            graph,
            options,
        ).len() == options.len() + 1,
        !graph.grouped ==> dot_options(graph, options) == options.map_values(|s: String| s@),
{
}


/// `small` occurs in `big` as a contiguous piece.
pub open spec fn occurs_in(small: Seq<char>, big: Seq<char>) -> bool {
    exists|k: int| 0 <= k && k + small.len() <= big.len() && #[trigger] big.subrange(k, k + small.len()) == small
}

/// A piece with known text before and after it occurs in the whole.
proof fn lemma_occurs(a: Seq<char>, small: Seq<char>, b: Seq<char>)
    ensures
        occurs_in(small, a + small + b),
{
    let big = a + small + b;
    let k = a.len() as int;
    assert(big.subrange(k, k + small.len()) =~= small);
}

/// The DOT text of the groups of two lists, one after the other, is the
/// text of the first list followed by that of the second: no group of
/// either list is dropped or drawn twice.
pub proof fn law_dot_subgraphs_concat(gs: Seq<VisualGraph>, hs: Seq<VisualGraph>, level: nat)
    ensures
        dot_subgraphs(gs + hs, level) == dot_subgraphs(gs, level) + dot_subgraphs(hs, level),
    decreases hs.len(),
{
    if hs.len() == 0 {
        assert(gs + hs =~= gs);
        assert(dot_subgraphs(gs, level) + dot_subgraphs(hs, level) =~= dot_subgraphs(gs, level));
    } else {
        law_dot_subgraphs_concat(gs, hs.drop_last(), level);
        assert((gs + hs).drop_last() =~= gs + hs.drop_last());
        assert((gs + hs).last() == hs.last());
        assert(dot_subgraphs(gs + hs, level) =~= dot_subgraphs(gs, level) + dot_subgraphs(hs, level));
    }
}

/// A single group is drawn as its own cluster.
pub proof fn law_dot_subgraphs_single(g: VisualGraph, level: nat)
    ensures
        dot_subgraphs(seq![g], level) == dot_subgraph(g, level),
{
    assert(seq![g].drop_last() =~= Seq::<VisualGraph>::empty());
    assert(seq![g].last() == g);
    assert(dot_subgraphs(Seq::<VisualGraph>::empty(), level) == Seq::<char>::empty());
    assert(dot_subgraphs(seq![g], level) =~= dot_subgraph(g, level));
}

/// Where the text of the `i`-th group stands in the text of a list.
proof fn lemma_subgraphs_has(gs: Seq<VisualGraph>, level: nat, i: int) -> (r: (Seq<char>, Seq<char>))
    requires
        0 <= i < gs.len(),
    ensures
        dot_subgraphs(gs, level) == r.0 + dot_subgraph(gs[i], level) + r.1,
    decreases gs.len(),
{
    if i == gs.len() - 1 {
        assert(gs.last() == gs[i]);
        let r = (dot_subgraphs(gs.drop_last(), level), Seq::<char>::empty());
        assert(dot_subgraphs(gs, level) =~= r.0 + dot_subgraph(gs[i], level) + r.1);
        r
    } else {
        let q = lemma_subgraphs_has(gs.drop_last(), level, i);
        assert(gs.drop_last()[i] == gs[i]);
        let r = (q.0, q.1 + dot_subgraph(gs.last(), level));
        assert(dot_subgraphs(gs, level) =~= r.0 + dot_subgraph(gs[i], level) + r.1);
        r
    }
}

/// Where the line of the `j`-th node stands in the lines of a list.
proof fn lemma_node_lines_has(ns: Seq<VisualNode>, level: nat, j: int) -> (r: (Seq<char>, Seq<char>))
    requires
        0 <= j < ns.len(),
    ensures
        dot_node_lines(ns, level) == r.0 + dot_node_line(ns[j], level) + r.1,
    decreases ns.len(),
{
    if j == ns.len() - 1 {
        let r = (dot_node_lines(ns.drop_last(), level), Seq::<char>::empty());
        assert(dot_node_lines(ns, level) =~= r.0 + dot_node_line(ns[j], level) + r.1);
        r
    } else {
        let q = lemma_node_lines_has(ns.drop_last(), level, j);
        assert(ns.drop_last()[j] == ns[j]);
        let r = (q.0, q.1 + dot_node_line(ns.last(), level));
        assert(dot_node_lines(ns, level) =~= r.0 + dot_node_line(ns[j], level) + r.1);
        r
    }
}

/// Occurring is transitive: a piece of a piece is a piece of the whole.
proof fn lemma_occurs_trans(x: Seq<char>, y: Seq<char>, z: Seq<char>)
    requires
        occurs_in(x, y),
        occurs_in(y, z),
    ensures
        occurs_in(x, z),
{
    let k1 = choose|k: int| 0 <= k && k + x.len() <= y.len() && #[trigger] y.subrange(k, k + x.len()) == x;
    let k2 = choose|k: int| 0 <= k && k + y.len() <= z.len() && #[trigger] z.subrange(k, k + y.len()) == y;
    assert forall|t: int| 0 <= t < x.len() implies z.subrange(k2 + k1, k2 + k1 + x.len())[t] == x[t] by {
        assert(y.subrange(k1, k1 + x.len())[t] == y[k1 + t]);
        assert(z.subrange(k2, k2 + y.len())[k1 + t] == z[k2 + k1 + t]);
    }
    assert(z.subrange(k2 + k1, k2 + k1 + x.len()) =~= x);
}

/// The groups' text of a grouped graph occurs in its DOT text.
proof fn lemma_dot_text_has_groups(graph: VisualGraph, options: Seq<String>)
    requires
        graph.grouped,
        graph.subgraphs@.len() > 0,
    ensures
        occurs_in(dot_subgraphs(graph.subgraphs@, 1), dot_text(graph, options)),
{
    let head = "digraph G {\n"@ + "    graph ["@ + join_with(dot_options(graph, options), ", "@) + "];\n"@;
    let tail = dot_edge_lines(graph.nodes@, graph.edges@) + "}\n"@;
    let mid = dot_subgraphs(graph.subgraphs@, 1);
    assert(dot_text(graph, options) =~= head + mid + tail);
    lemma_occurs(head, mid, tail);
}

/// The cluster header and the node lines of a group occur in its text.
proof fn lemma_subgraph_has_parts(g: VisualGraph, level: nat)
    ensures
        occurs_in(indentation(level) + "subgraph cluster_"@ + g.id@ + " {\n"@, dot_subgraph(g, level)),
        occurs_in(dot_node_lines(g.nodes@, level + 1), dot_subgraph(g, level)),
{
    let cl = indentation(level) + "subgraph cluster_"@ + g.id@ + " {\n"@;
    let pre = cl + indentation(level + 1) + "graph [style=\"filled,rounded\", fillcolor=\"#80808018\", label=\""@
        + g.label@ + "\"];\n"@;
    let lines = dot_node_lines(g.nodes@, level + 1);
    let post = dot_subgraphs(g.subgraphs@, level + 1) + indentation(level) + "}\n"@;
    assert(dot_subgraph(g, level) =~= pre + lines + post);
    lemma_occurs(pre, lines, post);
    let rest = pre.subrange(cl.len() as int, pre.len() as int) + lines + post;
    assert(dot_subgraph(g, level) =~= Seq::<char>::empty() + cl + rest);
    lemma_occurs(Seq::<char>::empty(), cl, rest);
}

/// In a grouped graph with groups, every top-level group is drawn as a
/// cluster, with its header, and every node of it is drawn inside it, one
/// level deeper.
pub proof fn law_dot_draws_every_group(graph: VisualGraph, options: Seq<String>, i: int, j: int)
    requires
        graph.grouped,
        0 <= i < graph.subgraphs@.len(),
    ensures
        occurs_in(dot_subgraph(graph.subgraphs@[i], 1), dot_text(graph, options)),
        occurs_in(
            indentation(1) + "subgraph cluster_"@ + graph.subgraphs@[i].id@ + " {\n"@,
            dot_text(graph, options),
        ),
        0 <= j < graph.subgraphs@[i].nodes@.len() ==> occurs_in(
            dot_node_line(graph.subgraphs@[i].nodes@[j], 2),
            dot_text(graph, options),
        ),
{
    let g = graph.subgraphs@[i];
    let text = dot_text(graph, options);
    let q = lemma_subgraphs_has(graph.subgraphs@, 1, i);
    lemma_occurs(q.0, dot_subgraph(g, 1), q.1);
    lemma_dot_text_has_groups(graph, options);
    lemma_occurs_trans(dot_subgraph(g, 1), dot_subgraphs(graph.subgraphs@, 1), text);
    lemma_subgraph_has_parts(g, 1);
    let cl = indentation(1) + "subgraph cluster_"@ + g.id@ + " {\n"@;
    lemma_occurs_trans(cl, dot_subgraph(g, 1), text);
    if 0 <= j < g.nodes@.len() {
        let w = lemma_node_lines_has(g.nodes@, 2, j);
        lemma_occurs(w.0, dot_node_line(g.nodes@[j], 2), w.1);
        lemma_occurs_trans(dot_node_lines(g.nodes@, 2), dot_subgraph(g, 1), text);
        lemma_occurs_trans(dot_node_line(g.nodes@[j], 2), dot_node_lines(g.nodes@, 2), text);
    }
}

/// In a graph drawn without clusters, every node is drawn at the top level.
pub proof fn law_dot_draws_every_node(graph: VisualGraph, options: Seq<String>, j: int)
    requires
        !(graph.grouped && graph.subgraphs@.len() > 0),
        0 <= j < graph.nodes@.len(),
    ensures
        occurs_in(dot_node_line(graph.nodes@[j], 1), dot_text(graph, options)),
{
    let head = "digraph G {\n"@ + "    graph ["@ + join_with(dot_options(graph, options), ", "@) + "];\n"@;
    let tail = dot_edge_lines(graph.nodes@, graph.edges@) + "}\n"@;
    let w = lemma_node_lines_has(graph.nodes@, 1, j);
    let x = head + w.0;
    let y = w.1 + tail;
    assert(dot_text(graph, options) =~= x + dot_node_line(graph.nodes@[j], 1) + y);
    lemma_occurs(x, dot_node_line(graph.nodes@[j], 1), y);
}

} // verus!
