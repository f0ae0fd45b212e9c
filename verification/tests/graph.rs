use flow_rs::config::{Config, ConnConfig, GraphConfig, NodeConfig, PortConfig, ResourceConfig};
use flow_rs::conversion::ConversionTable;
use flow_rs::error::Error;
use flow_rs::graph::{assemble, assemble_dynamic, resource_plan, Assembly, Builder, DynWiring};
use flow_rs::interlayer::MsgTypeId;
use flow_rs::registry::{find, NodeRegistration, TaggedEndpoint};
use flow_rs::resource::{find_resource, ResourceRegistration};
use flow_rs::type_infer::infer;
use flow_rs::wiring::assemble_graph;

fn strings(v: &[&str]) -> Vec<String> {
    v.iter().map(|s| s.to_string()).collect()
}

fn reg(name: &str, inputs: &[&str], outputs: &[&str]) -> NodeRegistration {
    NodeRegistration {
        name: name.into(),
        inputs: strings(inputs),
        outputs: strings(outputs),
        input_dict: vec![],
        output_dict: vec![],
        input_array: vec![false; inputs.len()],
        output_array: vec![false; outputs.len()],
        input_dyn: vec![],
        output_dyn: vec![],
        input_types: vec![MsgTypeId::Any; inputs.len()],
        output_types: vec![MsgTypeId::Any; outputs.len()],
    }
}

fn registry() -> Vec<NodeRegistration> {
    let mut binary = reg("BinaryOp", &["a", "b"], &["c"]);
    binary.input_types = vec![MsgTypeId::of::<i32>(); 2];
    binary.output_types = vec![MsgTypeId::of::<i32>()];
    let transform = reg("Transform", &["inp"], &["out"]);
    let mut bcast = reg("Bcast", &["inp"], &["out"]);
    bcast.output_array = vec![true];
    let mut dynamic = reg("Trigger", &["inp"], &["spawn"]);
    dynamic.output_dyn = vec![true];
    let mut templated = reg("Identity", &["inp"], &["out"]);
    templated.input_types = vec![MsgTypeId::Template(0)];
    templated.output_types = vec![MsgTypeId::Template(0)];
    vec![binary, transform, bcast, dynamic, templated]
}

fn node(name: &str, ty: &str) -> NodeConfig {
    NodeConfig { name: name.into(), ty: ty.into(), args: toml::map::Map::new() }
}

fn port(name: &str, cap: usize, ports: &[&str]) -> PortConfig {
    PortConfig { name: name.into(), cap, ports: strings(ports) }
}

fn conn(cap: usize, ports: &[&str]) -> ConnConfig {
    ConnConfig { cap, ports: strings(ports) }
}

fn graph(name: &str, nodes: Vec<NodeConfig>, inputs: Vec<PortConfig>, outputs: Vec<PortConfig>, connections: Vec<ConnConfig>) -> GraphConfig {
    GraphConfig { name: name.into(), nodes, inputs, outputs, connections, resources: vec![] }
}

fn binary_op_graph() -> GraphConfig {
    graph(
        "example",
        vec![node("add", "BinaryOp")],
        vec![port("a", 16, &["add:a"]), port("b", 16, &["add:b"])],
        vec![port("c", 16, &["add:c"])],
        vec![],
    )
}

#[test]
fn registry_flags_and_lookup() {
    let regs = registry();
    assert_eq!(find(&regs, "Bcast").unwrap().name, "Bcast");
    assert!(find(&regs, "Nope").is_none());
    let b = find(&regs, "Bcast").unwrap();
    assert!(b.output_is_array("out"));
    assert!(!b.input_is_array("inp"));
    assert!(!b.output_is_array("missing"));
    assert!(!b.input_is_dict("inp"));
    let t = find(&regs, "Trigger").unwrap();
    assert!(t.output_is_dyn("spawn"));
    assert!(!t.input_is_dyn("inp"));
    let e = TaggedEndpoint::new(5u8, Some(3));
    assert_eq!((e.endpoint, e.tag), (5, Some(3)));
}

#[test]
fn infer_types_every_edge_of_a_binary_op_graph() {
    let regs = registry();
    let table: ConversionTable<()> = ConversionTable::new();
    let ig = infer(&binary_op_graph(), &regs, &table).unwrap();
    let i32t = MsgTypeId::of::<i32>();
    assert_eq!(ig.connections, vec![i32t, i32t, i32t]);
    assert_eq!(ig.port_type("add", "c", false), i32t);
}

#[test]
fn infer_settles_template_parameters_from_their_neighbours() {
    let regs = registry();
    let table: ConversionTable<()> = ConversionTable::new();
    let g = graph(
        "g",
        vec![node("add", "BinaryOp"), node("id", "Identity")],
        vec![port("a", 1, &["add:a"]), port("b", 1, &["add:b"])],
        vec![port("out", 1, &["id:out"])],
        vec![conn(1, &["add:c", "id:inp"])],
    );
    let ig = infer(&g, &regs, &table).unwrap();
    let i32t = MsgTypeId::of::<i32>();
    assert_eq!(ig.connections, vec![i32t, i32t, i32t, i32t]);
    assert_eq!(ig.port_type("id", "inp", true), i32t);
    assert_eq!(ig.port_type("id", "out", false), i32t);
}

#[test]
fn infer_takes_an_all_template_edge_as_any() {
    let regs = registry();
    let table: ConversionTable<()> = ConversionTable::new();
    let g = graph("g", vec![node("id", "Identity")], vec![port("in", 1, &["id:inp"])], vec![port("out", 1, &["id:out"])], vec![]);
    let ig = infer(&g, &regs, &table).unwrap();
    assert_eq!(ig.connections, vec![MsgTypeId::Any, MsgTypeId::Any]);
}

#[test]
fn infer_reports_structural_errors_in_order() {
    let regs = registry();
    let table: ConversionTable<()> = ConversionTable::new();
    let unknown_type = graph("g", vec![node("x", "Nope")], vec![], vec![], vec![]);
    assert!(matches!(infer(&unknown_type, &regs, &table), Err(Error::UnknownNodeType(ref t)) if t == "Nope"));
    let empty_input = graph("g", vec![node("t", "Transform")], vec![port("in", 1, &[])], vec![], vec![]);
    assert!(matches!(infer(&empty_input, &regs, &table), Err(Error::BadConnection(ref m)) if m == "graph input has no target"));
    let bad_ref = graph("g", vec![node("t", "Transform")], vec![port("in", 1, &["t"])], vec![], vec![]);
    assert!(matches!(infer(&bad_ref, &regs, &table), Err(Error::BadPortRef(ref m)) if m == "t"));
    let no_node = graph("g", vec![node("t", "Transform")], vec![port("in", 1, &["u:inp"])], vec![], vec![]);
    assert!(matches!(infer(&no_node, &regs, &table), Err(Error::UnknownNode(ref m)) if m == "u"));
    let no_port = graph("g", vec![node("t", "Transform")], vec![port("in", 1, &["t:zz"])], vec![], vec![]);
    assert!(matches!(infer(&no_port, &regs, &table), Err(Error::UnknownPort { ref node, ref port }) if node == "t" && port == "zz"));
    let one_sided = graph("g", vec![node("t", "Transform"), node("u", "Transform")], vec![], vec![], vec![conn(1, &["t:inp", "u:inp"])]);
    assert!(matches!(infer(&one_sided, &regs, &table), Err(Error::BadConnection(ref m)) if m == "connection needs sender and receiver"));
    let abstract_sender = graph(
        "g",
        vec![node("add", "BinaryOp"), node("t", "Transform")],
        vec![],
        vec![],
        vec![conn(1, &["t:out", "add:a"])],
    );
    assert_eq!(infer(&abstract_sender, &regs, &table).unwrap().connections, vec![MsgTypeId::of::<i32>()]);
    let mut regs2 = registry();
    regs2[1].output_types = vec![MsgTypeId::of::<u8>()];
    let mismatch = graph(
        "g",
        vec![node("add", "BinaryOp"), node("t", "Transform")],
        vec![],
        vec![],
        vec![conn(1, &["t:out", "add:a"])],
    );
    assert!(matches!(infer(&mismatch, &regs2, &table), Err(Error::ChannelTypeMismatch)));
}

#[test]
fn assemble_graph_plans_channels_and_node_groups() {
    let regs = registry();
    let table: ConversionTable<()> = ConversionTable::new();
    let plan = assemble_graph(&binary_op_graph(), &regs, &table).unwrap();
    assert_eq!(plan.channels.len(), 3);
    assert!(plan.channels.iter().all(|c| c.cap == 16 && c.ty == MsgTypeId::of::<i32>()));
    assert_eq!(plan.graph_inputs, vec![("a".to_string(), 0), ("b".to_string(), 1)]);
    assert_eq!(plan.graph_outputs, vec![("c".to_string(), 2)]);
    assert_eq!(plan.nodes.len(), 1);
    let n = &plan.nodes[0];
    assert_eq!((n.name.as_str(), n.ty.as_str(), n.reg), ("add", "BinaryOp", 0));
    let ins: Vec<(&str, Vec<Option<usize>>)> =
        n.inputs.iter().map(|g| (g.port.as_str(), g.endpoints.iter().map(|e| e.channel).collect())).collect();
    assert_eq!(ins, vec![("a", vec![Some(0)]), ("b", vec![Some(1)])]);
    assert_eq!(n.outputs[0].port, "c");
    assert_eq!(n.outputs[0].endpoints[0].channel, Some(2));
}

#[test]
fn assemble_graph_fills_unwired_single_ports_and_fans_out_arrays() {
    let regs = registry();
    let table: ConversionTable<()> = ConversionTable::new();
    let g = graph(
        "g",
        vec![node("bc", "Bcast"), node("x", "Transform"), node("y", "Transform")],
        vec![port("in", 4, &["bc:inp"])],
        vec![],
        vec![conn(2, &["bc:out", "x:inp"]), conn(3, &["bc:out", "y:inp"])],
    );
    let plan = assemble_graph(&g, &regs, &table).unwrap();
    assert_eq!(plan.channels.iter().map(|c| c.cap).collect::<Vec<_>>(), vec![4, 2, 3]);
    let bc = &plan.nodes[0];
    assert_eq!(bc.outputs[0].endpoints.iter().map(|e| e.channel).collect::<Vec<_>>(), vec![Some(1), Some(2)]);
    let x = &plan.nodes[1];
    assert_eq!(x.outputs[0].endpoints.len(), 1);
    assert_eq!(x.outputs[0].endpoints[0].channel, None);
}

#[test]
fn assemble_graph_refuses_a_single_port_wired_twice() {
    let regs = registry();
    let table: ConversionTable<()> = ConversionTable::new();
    let g = graph(
        "g",
        vec![node("t", "Transform")],
        vec![port("a", 1, &["t:inp"]), port("b", 1, &["t:inp"])],
        vec![],
        vec![],
    );
    let err = assemble_graph(&g, &regs, &table).err().unwrap();
    assert!(matches!(err, Error::PortAlreadyConnected { ref node, ref port } if node == "t" && port == "inp"), "got: {err:?}");
}

#[test]
fn assemble_graph_refuses_a_static_reference_to_a_run_time_port() {
    let regs = registry();
    let table: ConversionTable<()> = ConversionTable::new();
    let g = graph(
        "g",
        vec![node("trig", "Trigger"), node("t", "Transform")],
        vec![port("in", 1, &["trig:inp"])],
        vec![],
        vec![conn(1, &["trig:spawn", "t:inp"])],
    );
    let err = assemble_graph(&g, &regs, &table).err().unwrap();
    assert!(matches!(err, Error::UnknownPort { ref node, ref port } if node == "trig" && port == "spawn"), "got: {err:?}");
}

#[test]
fn assemble_graph_reaches_every_referenced_port() {
    let regs = registry();
    let table: ConversionTable<()> = ConversionTable::new();
    let g = graph(
        "g",
        vec![node("x", "Transform"), node("y", "Transform")],
        vec![port("in", 1, &["x:inp"])],
        vec![port("out", 1, &["y:out"])],
        vec![conn(1, &["y:inp", "x:out"])],
    );
    let plan = assemble_graph(&g, &regs, &table).unwrap();
    let x = &plan.nodes[0];
    let y = &plan.nodes[1];
    assert_eq!((x.inputs[0].port.as_str(), x.inputs[0].endpoints[0].channel), ("inp", Some(0)));
    assert_eq!((y.outputs[0].port.as_str(), y.outputs[0].endpoints[0].channel), ("out", Some(1)));
    assert_eq!(x.outputs[0].endpoints[0].channel, Some(2));
    assert_eq!(y.inputs[0].endpoints[0].channel, Some(2));
    assert!(plan.nodes.iter().all(|n| n.inputs.iter().chain(n.outputs.iter()).all(|g| g.endpoints.len() == 1)));
}

fn dynamic_setup() -> (GraphConfig, Vec<GraphConfig>) {
    let sub = graph("Sub", vec![node("t", "Transform")], vec![port("inp", 1, &["t:inp"])], vec![port("out", 1, &["t:out"])], vec![]);
    let main = graph(
        "main",
        vec![node("trig", "Trigger"), node("site", "Sub")],
        vec![port("in", 1, &["trig:inp"])],
        vec![],
        vec![conn(5, &["trig:spawn", "site:inp"])],
    );
    (main, vec![sub])
}

#[test]
fn from_conn_recognises_dynamic_wirings() {
    let regs = registry();
    let (main, subs) = dynamic_setup();
    let w = DynWiring::from_conn(&main, &subs, &regs, &main.connections[0]).unwrap().unwrap();
    assert_eq!((w.node.as_str(), w.port.as_str(), w.topic.as_str(), w.target.as_str(), w.cap), ("trig", "spawn", "site", "inp", 5));
    assert_eq!(w.graph_config.name, "Sub");
    let plain = conn(1, &["trig:inp", "site:out"]);
    let err = DynWiring::from_conn(&main, &subs, &regs, &plain).err().unwrap();
    let expected = format!("dynamic subgraph site in connection {:?} is not wired to a dyn port", plain.ports);
    assert!(matches!(err, Error::BadConnection(ref m) if *m == expected), "got: {err:?}");
    let wrong_side = conn(1, &["trig:spawn", "site:out"]);
    let err = DynWiring::from_conn(&main, &subs, &regs, &wrong_side).err().unwrap();
    assert!(matches!(err, Error::UnknownPort { ref node, ref port } if node == "site" && port == "out"), "got: {err:?}");
    let ordinary = conn(1, &["trig:inp"]);
    assert!(DynWiring::from_conn(&main, &subs, &regs, &ordinary).unwrap().is_none());
}

#[test]
fn assemble_dynamic_filters_sites_and_locates_wiring_nodes() {
    let regs = registry();
    let table: ConversionTable<()> = ConversionTable::new();
    let (main, subs) = dynamic_setup();
    let dp = assemble_dynamic(&main, &subs, &regs, &table).unwrap();
    let names: Vec<&str> = dp.filtered.nodes.iter().map(|n| n.name.as_str()).collect();
    assert_eq!(names, vec!["trig"]);
    assert!(dp.filtered.connections.is_empty());
    assert_eq!(dp.wirings.len(), 1);
    assert_eq!(dp.targets, vec![0]);
    let (mut plain, _) = dynamic_setup();
    plain.connections.clear();
    let err = assemble_dynamic(&plain, &subs, &regs, &table).err().unwrap();
    assert!(matches!(err, Error::Unsupported(ref m) if m == "dynamic subgraph present but no dyn connection found"));
}

#[test]
fn assemble_chooses_the_entry_graph_and_its_mode() {
    let regs = registry();
    let table: ConversionTable<()> = ConversionTable::new();
    let single = Config { main: "example".into(), graphs: vec![binary_op_graph()] };
    assert!(matches!(assemble(&single, &regs, &table), Ok(Assembly::Plain(_))));
    let (main, subs) = dynamic_setup();
    let mut graphs = subs;
    graphs.push(main);
    let with_subs = Config { main: "main".into(), graphs };
    assert!(matches!(assemble(&with_subs, &regs, &table), Ok(Assembly::Dynamic(_))));
    let missing = Config { main: "nope".into(), graphs: vec![] };
    assert!(matches!(assemble(&missing, &regs, &table), Err(Error::MainGraphNotFound(ref m)) if m == "nope"));
}

#[test]
fn resources_are_found_by_type_name() {
    let rregs = vec![ResourceRegistration { ty: "Counter".into() }];
    assert!(find_resource(&rregs, "Counter").is_some());
    assert!(find_resource(&rregs, "Model").is_none());
    let mut g = binary_op_graph();
    g.resources.push(ResourceConfig { name: "c".into(), ty: "Counter".into(), args: toml::map::Map::new() });
    assert_eq!(resource_plan(&g, &rregs).unwrap(), vec![0]);
    g.resources.push(ResourceConfig { name: "m".into(), ty: "Model".into(), args: toml::map::Map::new() });
    assert!(matches!(resource_plan(&g, &rregs), Err(Error::UnknownResourceType(ref t)) if t == "Model"));
}

#[test]
fn builder_keeps_its_template() {
    let b = Builder::default().template("main=\"g\"".to_string());
    assert_eq!(b.template.as_deref(), Some("main=\"g\""));
}

#[test]
fn infer_refuses_a_template_settled_to_a_type_its_other_edge_cannot_carry() {
    let mut regs = registry();
    let mut text = reg("Text", &["inp"], &[]);
    text.input_types = vec![MsgTypeId::of::<String>()];
    regs.push(text);
    let table: ConversionTable<()> = ConversionTable::new();
    let g = graph(
        "g",
        vec![node("add", "BinaryOp"), node("id", "Identity"), node("sink", "Text")],
        vec![port("a", 1, &["add:a"]), port("b", 1, &["add:b"])],
        vec![],
        vec![conn(1, &["add:c", "id:inp"]), conn(1, &["id:out", "sink:inp"])],
    );
    assert!(matches!(infer(&g, &regs, &table), Err(Error::ChannelTypeMismatch)));
}

#[test]
fn assemble_graph_refuses_a_single_port_taken_by_an_input_and_a_connection() {
    let regs = registry();
    let table: ConversionTable<()> = ConversionTable::new();
    let g = graph(
        "g",
        vec![node("t", "Transform"), node("u", "Transform")],
        vec![port("a", 1, &["t:inp"])],
        vec![],
        vec![conn(1, &["u:out", "t:inp"])],
    );
    let err = assemble_graph(&g, &regs, &table).err().unwrap();
    assert!(matches!(err, Error::PortAlreadyConnected { ref node, ref port } if node == "t" && port == "inp"), "got: {err:?}");
}

#[test]
fn assemble_graph_settles_a_template_between_two_concrete_ports() {
    let mut regs = registry();
    let mut sink = reg("Sink", &["inp"], &[]);
    sink.input_types = vec![MsgTypeId::of::<i32>()];
    regs.push(sink);
    let table: ConversionTable<()> = ConversionTable::new();
    let g = graph(
        "g",
        vec![node("add", "BinaryOp"), node("id", "Identity"), node("k", "Sink")],
        vec![port("a", 1, &["add:a"]), port("b", 1, &["add:b"])],
        vec![],
        vec![conn(1, &["add:c", "id:inp"]), conn(1, &["id:out", "k:inp"])],
    );
    let plan = assemble_graph(&g, &regs, &table).unwrap();
    let i32t = MsgTypeId::of::<i32>();
    assert_eq!(plan.channels.iter().map(|c| c.ty).collect::<Vec<_>>(), vec![i32t, i32t, i32t, i32t]);
}
