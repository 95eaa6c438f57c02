use merman::graph::{Graph, GraphError, Node};
use merman::layouting::{to_svg, Style};

fn node(id: &str, name: &str, op: Option<&str>) -> Node {
    Node {
        id: id.to_string(),
        name: name.to_string(),
        op: op.map(|s| s.to_string()),
    }
}

fn conn(from: &str, to: &str) -> (String, String) {
    (from.to_string(), to.to_string())
}

fn simple_add_graph() -> Graph {
    let nodes = vec![
        node("input0", "Input 0", None),
        node("bias", "Bias", None),
        node("add", "Add", Some("+")),
        node("output", "Output", None),
    ];
    let connections = vec![
        conn("input0", "add"),
        conn("bias", "add"),
        conn("add", "output"),
    ];
    Graph::build(nodes, connections).expect("Could not parse file!")
}

fn diamond_graph() -> Graph {
    let nodes = vec![
        node("input0", "Input 0", None),
        node("bias", "Bias", None),
        node("add", "Add", Some("+")),
        node("mul", "Mul", Some("*")),
        node("output", "Output", None),
    ];
    let connections = vec![
        conn("input0", "add"),
        conn("bias", "add"),
        conn("add", "mul"),
        conn("bias", "mul"),
        conn("mul", "output"),
    ];
    Graph::build(nodes, connections).expect("Could not parse file!")
}

#[test]
fn simple_add_test() {
    let graph = simple_add_graph();

    assert_eq!(graph.node_size(), 4usize);

    assert_eq!(graph.node(0).name, "Input 0");
}

#[test]
fn simple_add_topological_sort_0() {
    let graph = simple_add_graph();

    let sort_order = graph.reverse_topological_sort().unwrap();

    assert_eq!(graph.node_size(), 4usize);

    assert_eq!(
        sort_order
            .order_indices
            .iter()
            .map(|&i| &graph.node(i).name)
            .collect::<Vec<_>>(),
        vec!["Output", "Add", "Input 0", "Bias"]
    );

    assert_eq!(graph.node(sort_order.order_indices[0]).name, "Output");
    assert_eq!(graph.node(sort_order.order_indices[1]).name, "Add");
    assert_eq!(graph.node(sort_order.order_indices[2]).name, "Input 0");
    assert_eq!(graph.node(sort_order.order_indices[3]).name, "Bias");

    assert_eq!(sort_order.depths, vec![0, 1, 2, 2]);
}

#[test]
fn simple_add_topological_sort_1() {
    let graph = diamond_graph();

    let sort_order = graph.reverse_topological_sort().unwrap();

    assert_eq!(graph.node_size(), 5usize);

    assert_eq!(graph.node(sort_order.order_indices[0]).name, "Output");
    assert_eq!(graph.node(sort_order.order_indices[1]).name, "Mul");
    assert_eq!(graph.node(sort_order.order_indices[2]).name, "Add");
    assert_eq!(graph.node(sort_order.order_indices[3]).name, "Input 0");
    assert_eq!(graph.node(sort_order.order_indices[4]).name, "Bias");

    assert_eq!(sort_order.depths, vec![0, 1, 2, 3, 3]);
}

#[test]
fn in_level_positions_and_counts() {
    let graph = simple_add_graph();
    let sort_order = graph.reverse_topological_sort().unwrap();

    assert_eq!(sort_order.index_at_depth, vec![0, 0, 0, 1]);
    assert_eq!(sort_order.nodes_in_level, vec![1, 1, 2]);
}

#[test]
fn no_sink_graph_is_an_empty_graph_error() {
    let nodes = vec![node("a", "A", None), node("b", "B", None)];
    let connections = vec![conn("a", "b"), conn("b", "a")];
    let graph = Graph::build(nodes, connections).unwrap();

    match graph.reverse_topological_sort() {
        Err(GraphError::InternalError { message }) => assert_eq!(message, "EmptyGraph"),
        _ => panic!("expected an EmptyGraph error"),
    }
}

#[test]
fn cycle_is_detected_within_node_count() {
    let nodes = vec![node("a", "A", None), node("b", "B", None), node("s", "S", None)];
    let connections = vec![conn("a", "b"), conn("b", "a"), conn("a", "s")];
    let graph = Graph::build(nodes, connections).unwrap();

    match graph.reverse_topological_sort() {
        Err(GraphError::InternalError { message }) => {
            assert_eq!(message, "Cycle detected at node A")
        }
        _ => panic!("expected a cycle error"),
    }
}

#[test]
fn node_unreachable_from_any_sink_is_an_error() {
    let nodes = vec![node("a", "A", None), node("b", "B", None), node("s", "S", None)];
    let connections = vec![conn("a", "b"), conn("b", "a")];
    let graph = Graph::build(nodes, connections).unwrap();

    match graph.reverse_topological_sort() {
        Err(GraphError::InternalError { message }) => {
            assert_eq!(message, "Unreachable node A")
        }
        _ => panic!("expected an unreachable-node error"),
    }
}

#[test]
fn unknown_from_key_is_reported() {
    let nodes = vec![node("a", "A", None)];
    let connections = vec![conn("x", "a")];
    match Graph::build(nodes, connections) {
        Err(GraphError::InternalError { message }) => {
            assert_eq!(message, "Invalid from reference x")
        }
        _ => panic!("expected a reference error"),
    }
}

#[test]
fn unknown_to_key_is_reported() {
    let nodes = vec![node("a", "A", None)];
    let connections = vec![conn("a", "y")];
    match Graph::build(nodes, connections) {
        Err(GraphError::InternalError { message }) => {
            assert_eq!(message, "Invalid to reference y")
        }
        _ => panic!("expected a reference error"),
    }
}

#[test]
fn rendering_twice_is_byte_identical() {
    let graph = diamond_graph();
    let sort_order = graph.reverse_topological_sort().unwrap();
    let style = Style::default();

    let first = to_svg(&graph, &sort_order, &style);
    let second = to_svg(&graph, &sort_order, &style);

    assert_eq!(first, second);
}

#[test]
fn single_node_svg_is_exact() {
    let nodes = vec![node("out", "Output", None)];
    let graph = Graph::build(nodes, vec![]).unwrap();
    let sort_order = graph.reverse_topological_sort().unwrap();
    let style = Style::default();

    let svg = to_svg(&graph, &sort_order, &style);

    let mut expected = String::new();
    expected.push_str("<svg height=\"100\" width=\"230\" xmlns=\"http://www.w3.org/2000/svg\">\n");
    expected.push_str("<defs>\n");
    expected.push_str("    <marker\n");
    expected.push_str("        id=\"arrowhead\"\n");
    expected.push_str("        markerWidth=\"6\"\n");
    expected.push_str("        markerHeight=\"6\"\n");
    expected.push_str("        refX=\"0\"\n");
    expected.push_str("        refY=\"3\"\n");
    expected.push_str("        orient=\"auto\"\n");
    expected.push_str("    >\n");
    expected.push_str("        <polygon points=\"0 0, 6 3, 0 6\" />\n");
    expected.push_str("    </marker>\n");
    expected.push_str("</defs>\n");
    expected.push_str(
        "<rect x=\"5\" y=\"5\" height=\"95\" width=\"225\" fill=\"white\" stroke=\"black\" rx=\"2\" stroke-width=\"2\"/>\n",
    );
    expected.push_str(
        "<rect x=\"35\" y=\"30\" height=\"40\" width=\"160\" fill=\"none\" stroke=\"black\" rx=\"2\" stroke-widht=\"2\"/>\n",
    );
    expected.push_str(
        "<text font-size=\"10\" font-family=\"monospace\" x=\"115\" y=\"60\" dominant-baseline=\"middle\" text-anchor=\"middle\">Output</text>\n",
    );
    expected.push_str("</svg>\n");
    assert_eq!(svg, expected);
}

#[test]
fn canvas_scales_with_levels_and_occupancy() {
    let style = Style::default();

    // one level, one node: one column wide
    let g1 = {
        let nodes = vec![node("a", "A", None)];
        Graph::build(nodes, vec![]).unwrap()
    };
    let s1 = g1.reverse_topological_sort().unwrap();
    assert!(to_svg(&g1, &s1, &style).starts_with("<svg height=\"100\" width=\"230\""));

    // two levels, one node each: one more column, same height
    let g2 = {
        let nodes = vec![node("a", "A", None), node("b", "B", None)];
        Graph::build(nodes, vec![conn("a", "b")]).unwrap()
    };
    let s2 = g2.reverse_topological_sort().unwrap();
    assert!(to_svg(&g2, &s2, &style).starts_with("<svg height=\"100\" width=\"440\""));

    // two nodes in one level: same width as one column, one more row
    let g3 = {
        let nodes = vec![node("a", "A", None), node("b", "B", None), node("c", "C", None)];
        Graph::build(nodes, vec![conn("a", "c"), conn("b", "c")]).unwrap()
    };
    let s3 = g3.reverse_topological_sort().unwrap();
    assert!(to_svg(&g3, &s3, &style).starts_with("<svg height=\"180\" width=\"440\""));
}

#[test]
fn connection_curve_is_exact() {
    let graph = simple_add_graph();
    let sort_order = graph.reverse_topological_sort().unwrap();
    let style = Style::default();

    let svg = to_svg(&graph, &sort_order, &style);

    // the curve from Add into Output
    assert!(svg.contains(
        "<path d=\"M 405 90 C 417 90, 433 90, 445 90\" stroke=\"black\" stroke-width=\"2\" marker-end=\"url(#arrowhead)\" fill=\"none\"/>\n"
    ));
}

#[test]
fn style_level_dimensions() {
    let style = Style::default();
    assert_eq!(style.width_per_level(), 210);
    assert_eq!(style.height_per_level(), 80);
}

#[test]
fn duplicate_keys_resolve_to_the_last_node() {
    let nodes = vec![node("a", "First", None), node("a", "Second", None), node("s", "S", None)];
    let connections = vec![conn("a", "s")];
    let graph = Graph::build(nodes, connections).unwrap();

    let sort_order = graph.reverse_topological_sort().unwrap();
    // node 1 ("Second") carries the connection; node 0 feeds nothing and is
    // a sink of its own
    assert_eq!(sort_order.depths, vec![0, 0, 1]);
    assert_eq!(graph.node(sort_order.order_indices[2]).name, "Second");
}
