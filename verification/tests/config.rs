use flow_rs::config::{Config, ConnConfig, GraphConfig, NodeConfig, PortConfig, PortRef, ResourceConfig};
use flow_rs::error::Error;
use flow_rs::subgraph::flatten;

fn node(name: &str, ty: &str) -> NodeConfig {
    NodeConfig { name: name.into(), ty: ty.into(), args: toml::map::Map::new() }
}

fn node_with(name: &str, ty: &str, key: &str, value: &str) -> NodeConfig {
    let mut args = toml::map::Map::new();
    args.insert(key.into(), toml::Value::String(value.into()));
    NodeConfig { name: name.into(), ty: ty.into(), args }
}

fn port(name: &str, cap: usize, ports: &[&str]) -> PortConfig {
    PortConfig { name: name.into(), cap, ports: ports.iter().map(|p| p.to_string()).collect() }
}

fn conn(cap: usize, ports: &[&str]) -> ConnConfig {
    ConnConfig { cap, ports: ports.iter().map(|p| p.to_string()).collect() }
}

fn graph(name: &str, nodes: Vec<NodeConfig>, inputs: Vec<PortConfig>, outputs: Vec<PortConfig>, connections: Vec<ConnConfig>) -> GraphConfig {
    GraphConfig { name: name.into(), nodes, inputs, outputs, connections, resources: vec![] }
}

fn has_conn(g: &GraphConfig, ports: &[&str]) -> bool {
    g.connections
        .iter()
        .any(|c| c.ports.iter().map(String::as_str).eq(ports.iter().copied()))
}

#[test]
fn main_graph_selects_by_name() {
    let cfg = Config {
        main: "second".into(),
        graphs: vec![graph("first", vec![], vec![], vec![], vec![]), graph("second", vec![], vec![], vec![], vec![])],
    };
    assert_eq!(cfg.main_graph().unwrap().name, "second");
}

#[test]
fn main_graph_none_when_missing() {
    let cfg = Config { main: "nope".into(), graphs: vec![graph("first", vec![], vec![], vec![], vec![])] };
    assert!(cfg.main_graph().is_none());
}

#[test]
fn port_ref_splits_node_and_port() {
    let r = PortRef::parse("add:a").unwrap();
    assert_eq!(r.node, "add");
    assert_eq!(r.port, "a");
}

#[test]
fn port_ref_rejects_malformed() {
    for bad in ["adda", "add:", ":a", ""] {
        assert!(matches!(PortRef::parse(bad), Err(Error::BadPortRef(_))));
    }
}

#[test]
fn port_ref_splits_at_the_first_colon_only() {
    let r = PortRef::parse("a:b:c").unwrap();
    assert_eq!(r.node, "a");
    assert_eq!(r.port, "b:c");
    match PortRef::parse("x") {
        Err(Error::BadPortRef(m)) => assert_eq!(m, "x"),
        other => panic!("unexpected {:?}", other.map(|p| (p.node, p.port))),
    }
}

#[test]
fn flatten_is_identity_without_subgraphs() {
    let cfg = Config {
        main: "g".into(),
        graphs: vec![graph(
            "g",
            vec![node("a", "Transform"), node("b", "Transform")],
            vec![port("in", 8, &["a:inp"])],
            vec![port("out", 8, &["b:out"])],
            vec![conn(8, &["a:out", "b:inp"])],
        )],
    };
    let flat = flatten(&cfg).unwrap();
    assert_eq!(flat.graphs.len(), 1);
    let g = &flat.graphs[0];
    let names: Vec<&str> = g.nodes.iter().map(|n| n.name.as_str()).collect();
    assert_eq!(names, vec!["a", "b"], "leaf names keep no prefix");
    assert_eq!(g.inputs[0].ports, vec!["a:inp".to_string()]);
    assert_eq!(g.outputs[0].ports, vec!["b:out".to_string()]);
    assert!(has_conn(g, &["a:out", "b:inp"]), "connections are kept as they are");
}

fn shared() -> Config {
    let branch = graph(
        "Branch",
        vec![node("tf", "Transform"), node_with("t", "Tally", "res", "counter")],
        vec![port("inp", 16, &["tf:inp"])],
        vec![port("out", 16, &["t:out"])],
        vec![conn(16, &["tf:out", "t:inp"])],
    );
    let mut top = graph(
        "top",
        vec![node("bc", "Bcast"), node("b1", "Branch"), node("b2", "Branch")],
        vec![port("in", 16, &["bc:inp"])],
        vec![port("o1", 16, &["b1:out"]), port("o2", 16, &["b2:out"])],
        vec![conn(16, &["bc:out", "b1:inp"]), conn(16, &["bc:out", "b2:inp"])],
    );
    top.resources.push(ResourceConfig { name: "counter".into(), ty: "Counter".into(), args: toml::map::Map::new() });
    Config { main: "top".into(), graphs: vec![branch, top] }
}

#[test]
fn flatten_expands_and_prefixes_subgraph_nodes() {
    let cfg = shared();
    let flat = flatten(&cfg).unwrap();
    let g = &flat.graphs[0];
    assert_eq!(g.name, "top");
    let mut names: Vec<&str> = g.nodes.iter().map(|n| n.name.as_str()).collect();
    names.sort_unstable();
    assert_eq!(names, vec!["b1/t", "b1/tf", "b2/t", "b2/tf", "bc"]);
    assert!(!g.nodes.iter().any(|n| n.ty == "Branch"), "no subgraph node stays in the flat graph");
    for tally in g.nodes.iter().filter(|n| n.ty == "Tally") {
        assert_eq!(tally.args.get("res").and_then(|v| v.as_str()), Some("counter"));
    }
}

#[test]
fn flatten_rewrites_internal_and_boundary_edges() {
    let cfg = shared();
    let flat = flatten(&cfg).unwrap();
    let g = &flat.graphs[0];
    assert!(has_conn(g, &["b1/tf:out", "b1/t:inp"]), "b1 internal edge");
    assert!(has_conn(g, &["b2/tf:out", "b2/t:inp"]), "b2 internal edge");
    assert!(has_conn(g, &["bc:out", "b1/tf:inp"]), "boundary input resolved to a leaf");
    assert!(has_conn(g, &["bc:out", "b2/tf:inp"]));
    let o1 = g.outputs.iter().find(|p| p.name == "o1").unwrap();
    assert_eq!(o1.ports, vec!["b1/t:out".to_string()], "boundary output resolved to a leaf");
    let o2 = g.outputs.iter().find(|p| p.name == "o2").unwrap();
    assert_eq!(o2.ports, vec!["b2/t:out".to_string()]);
    let inp = g.inputs.iter().find(|p| p.name == "in").unwrap();
    assert_eq!(inp.ports, vec!["bc:inp".to_string()]);
    assert_eq!(g.resources.len(), 1);
    assert_eq!(g.resources[0].name, "counter");
}

#[test]
fn flatten_handles_nested_subgraphs() {
    let cfg = Config {
        main: "outer".into(),
        graphs: vec![
            graph("mid", vec![node("leaf", "Transform")], vec![port("i", 8, &["leaf:inp"])], vec![port("o", 8, &["leaf:out"])], vec![]),
            graph("outer", vec![node("m", "mid")], vec![port("in", 8, &["m:i"])], vec![port("out", 8, &["m:o"])], vec![]),
        ],
    };
    let flat = flatten(&cfg).unwrap();
    let g = &flat.graphs[0];
    let names: Vec<&str> = g.nodes.iter().map(|n| n.name.as_str()).collect();
    assert_eq!(names, vec!["m/leaf"], "prefixes stack");
    assert_eq!(g.inputs[0].ports, vec!["m/leaf:inp".to_string()]);
    assert_eq!(g.outputs[0].ports, vec!["m/leaf:out".to_string()]);
}

#[test]
fn flatten_detects_cycle() {
    let cfg = Config {
        main: "a".into(),
        graphs: vec![
            graph("a", vec![node("nb", "b")], vec![], vec![], vec![]),
            graph("b", vec![node("na", "a")], vec![], vec![], vec![]),
        ],
    };
    let err = flatten(&cfg).unwrap_err();
    assert!(matches!(err, Error::SubgraphCycle(ref n) if n == "a"), "got: {err:?}");
}

#[test]
fn flatten_rejects_unknown_boundary_port() {
    let cfg = Config {
        main: "top".into(),
        graphs: vec![
            graph("Sub", vec![node("t", "Transform")], vec![port("inp", 8, &["t:inp"])], vec![port("out", 8, &["t:out"])], vec![]),
            graph(
                "top",
                vec![node("s", "Sub"), node("k", "NoopConsumer")],
                vec![],
                vec![],
                vec![conn(8, &["s:nosuchport", "k:inp"])],
            ),
        ],
    };
    let err = flatten(&cfg).unwrap_err();
    assert!(
        matches!(err, Error::UnknownPort { ref node, ref port } if node == "s" && port == "nosuchport"),
        "got: {err:?}"
    );
}

#[test]
fn flatten_missing_main_errors() {
    let cfg = Config { main: "nope".into(), graphs: vec![graph("x", vec![], vec![], vec![], vec![])] };
    let err = flatten(&cfg).unwrap_err();
    assert!(matches!(err, Error::MainGraphNotFound(ref m) if m == "nope"));
}

#[test]
fn flatten_rejects_a_reference_to_an_undefined_node() {
    let cfg = Config {
        main: "g".into(),
        graphs: vec![graph("g", vec![node("a", "Transform")], vec![port("in", 1, &["zz:inp"])], vec![], vec![])],
    };
    let err = flatten(&cfg).unwrap_err();
    assert!(matches!(err, Error::UnknownNode(ref n) if n == "zz"), "got: {err:?}");
}
