//! Inline expansion of subgraphs.
//!
//! A node whose type is the name of a graph of the configuration is a
//! subgraph reference.  [`flatten`] rewrites a configuration with such
//! references into one flat graph: leaf nodes keep their type and arguments
//! and get the path of the references that led to them as a name prefix
//! ("b1/t"), and every "node:port" reference is resolved through subgraph
//! boundaries down to a leaf.  A graph that reaches itself through references
//! is a cycle and is refused.
use crate::config::{lemma_nodes_view_push, lemma_conns_view_push, lemma_ports_view_push, first_graph_named, lemma_first_graph_named, port_ref_spec, clone_args, clone_resources, nodes_view, ports_view, conns_view, Config, ConfigV, ConnConfig, ConnV, GraphConfig, GraphV, NodeConfig, NodeV, PortConfig, PortRef, PortV};
use crate::error::{Error, ErrorV};
use crate::search::{first_index, last_index, lemma_first_index, lemma_first_index_is, lemma_last_index, lemma_last_index_is};
use crate::text::{lemma_split_once_rejoin, clone_strings, concat2, concat3, owned, str_eq, strings_view};
use vstd::prelude::*;

verus! {

broadcast use vstd::seq_lib::group_seq_properties, vstd::set::group_set_axioms;

pub open spec fn node_named(name: Seq<char>) -> spec_fn(NodeV) -> bool {
    |n: NodeV| n.name == name
}

pub open spec fn port_named(name: Seq<char>) -> spec_fn(PortV) -> bool {
    |p: PortV| p.name == name
}

pub open spec fn graph_named(name: Seq<char>) -> spec_fn(GraphV) -> bool {
    |g: GraphV| g.name == name
}

/// The graph that a node type refers to: the last graph of that name (later
/// definitions of a name replace earlier ones).  `None`: the type is a leaf type.
pub open spec fn subgraph_index(cfg: ConfigV, ty: Seq<char>) -> Option<int> {
    last_index(cfg.graphs, graph_named(ty))
}

/// The names of all graphs of the configuration.
pub open spec fn graph_names(gs: Seq<GraphV>) -> Set<Seq<char>> {
    gs.map_values(|g: GraphV| g.name).to_set()
}

/// How many graph names are not yet on the path `anc` of graphs being expanded.
pub open spec fn names_left(gs: Seq<GraphV>, anc: Seq<Seq<char>>) -> nat {
    graph_names(gs).difference(anc.to_set()).len()
}

/// Entering a graph not yet on the path leaves fewer names to enter.
pub proof fn lemma_names_left_shrinks(gs: Seq<GraphV>, anc: Seq<Seq<char>>, gi: int)
    requires
        0 <= gi < gs.len(),
        !anc.contains(gs[gi].name),
    ensures
        names_left(gs, anc.push(gs[gi].name)) < names_left(gs, anc),
{
    let n = gs[gi].name;
    let names = gs.map_values(|g: GraphV| g.name);
    assert(names[gi] == n);
    assert(graph_names(gs).contains(n));
    let d = graph_names(gs).difference(anc.to_set());
    assert(anc.push(n).to_set() =~= anc.to_set().insert(n)) by {
        assert forall|x| anc.push(n).to_set().contains(x) implies anc.to_set().insert(n).contains(x) by {
            let k = choose|k: int| 0 <= k < anc.push(n).len() && anc.push(n)[k] == x;
            if k < anc.len() {
                assert(anc[k] == x);
            }
        }
        assert forall|x| anc.to_set().insert(n).contains(x) implies anc.push(n).to_set().contains(x) by {
            if x == n {
                assert(anc.push(n)[anc.len() as int] == n);
            } else {
                let k = choose|k: int| 0 <= k < anc.len() && anc[k] == x;
                assert(anc.push(n)[k] == x);
            }
        }
    }
    assert(graph_names(gs).difference(anc.push(n).to_set()) =~= d.remove(n));
    assert(d.contains(n));
}

/// The result of a first step followed by the rest: `Err` as soon as either fails.
pub open spec fn then_refs(a: Seq<Seq<char>>, rest: Result<Seq<Seq<char>>, ErrorV>) -> Result<Seq<Seq<char>>, ErrorV> {
    match rest {
        Ok(b) => Ok(a + b),
        Err(e) => Err(e),
    }
}

pub open spec fn then_parts(
    a: (Seq<NodeV>, Seq<ConnV>),
    rest: Result<(Seq<NodeV>, Seq<ConnV>), ErrorV>,
) -> Result<(Seq<NodeV>, Seq<ConnV>), ErrorV> {
    match rest {
        Ok((n, c)) => Ok((a.0 + n, a.1 + c)),
        Err(e) => Err(e),
    }
}

/// The leaf reference written for node `node`, port `port` under prefix `prefix`.
pub open spec fn leaf_ref(prefix: Seq<char>, node: Seq<char>, port: Seq<char>) -> Seq<char> {
    prefix + node + seq![':'] + port
}

/// The prefix for the nodes of a subgraph referenced by node `node`.
pub open spec fn child_prefix(prefix: Seq<char>, node: Seq<char>) -> Seq<char> {
    prefix + node + seq!['/']
}

/// Resolves one reference `r`, written in graph `gi` under `prefix`, to leaf references.
/// `anc` is the path of graphs entered so far (for cycle detection).
pub open spec fn resolve_ref_spec(
    cfg: ConfigV,
    gi: int,
    prefix: Seq<char>,
    r: Seq<char>,
    anc: Seq<Seq<char>>,
) -> Result<Seq<Seq<char>>, ErrorV>
    decreases names_left(cfg.graphs, anc), 0nat, 0nat,
{
    if !(0 <= gi < cfg.graphs.len()) {
        Err(ErrorV::UnknownNode(r))
    } else {
        let g = cfg.graphs[gi];
        match port_ref_spec(r) {
            None => Err(ErrorV::BadPortRef(r)),
            Some((node, port)) => match first_index(g.nodes, node_named(node)) {
                None => Err(ErrorV::UnknownNode(node)),
                Some(ni) => match subgraph_index(cfg, g.nodes[ni].ty) {
                    None => Ok(seq![leaf_ref(prefix, node, port)]),
                    Some(si) => {
                        let sub = cfg.graphs[si];
                        let decls = sub.inputs + sub.outputs;
                        match first_index(decls, port_named(port)) {
                            None => Err(ErrorV::UnknownPort { node, port }),
                            Some(pi) => if anc.contains(sub.name) {
                                Err(ErrorV::SubgraphCycle(sub.name))
                            } else {
                                proof {
                                    lemma_last_index(cfg.graphs, graph_named(g.nodes[ni].ty));
                                    lemma_names_left_shrinks(cfg.graphs, anc, si);
                                }
                                resolve_list_spec(
                                    cfg,
                                    si,
                                    child_prefix(prefix, node),
                                    decls[pi].ports,
                                    anc.push(sub.name),
                                    0,
                                )
                            },
                        }
                    },
                },
            },
        }
    }
}

/// Resolves `refs[k..]` one after another and joins the results.
pub open spec fn resolve_list_spec(
    cfg: ConfigV,
    gi: int,
    prefix: Seq<char>,
    refs: Seq<Seq<char>>,
    anc: Seq<Seq<char>>,
    k: int,
) -> Result<Seq<Seq<char>>, ErrorV>
    decreases names_left(cfg.graphs, anc), 1nat, refs.len() - k,
{
    if k < 0 || k >= refs.len() {
        Ok(seq![])
    } else {
        match resolve_ref_spec(cfg, gi, prefix, refs[k], anc) {
            Err(e) => Err(e),
            Ok(a) => then_refs(a, resolve_list_spec(cfg, gi, prefix, refs, anc, k + 1)),
        }
    }
}

/// Resolves the references of the external ports `ports[k..]`.
pub open spec fn resolve_ports_spec(
    cfg: ConfigV,
    gi: int,
    prefix: Seq<char>,
    ports: Seq<PortV>,
    anc: Seq<Seq<char>>,
    k: int,
) -> Result<Seq<PortV>, ErrorV>
    decreases ports.len() - k,
{
    if k < 0 || k >= ports.len() {
        Ok(seq![])
    } else {
        match resolve_list_spec(cfg, gi, prefix, ports[k].ports, anc, 0) {
            Err(e) => Err(e),
            Ok(refs) => match resolve_ports_spec(cfg, gi, prefix, ports, anc, k + 1) {
                Err(e) => Err(e),
                Ok(rest) => Ok(seq![PortV { name: ports[k].name, cap: ports[k].cap, ports: refs }]
                    + rest),
            },
        }
    }
}

/// Resolves the references of the connections `conns[k..]` of graph `gi`.
pub open spec fn expand_conns_spec(
    cfg: ConfigV,
    gi: int,
    prefix: Seq<char>,
    anc: Seq<Seq<char>>,
    k: int,
) -> Result<Seq<ConnV>, ErrorV>
    decreases cfg.graphs[gi].connections.len() - k,
{
    let conns = cfg.graphs[gi].connections;
    if k < 0 || k >= conns.len() {
        Ok(seq![])
    } else {
        match resolve_list_spec(cfg, gi, prefix, conns[k].ports, anc, 0) {
            Err(e) => Err(e),
            Ok(refs) => match expand_conns_spec(cfg, gi, prefix, anc, k + 1) {
                Err(e) => Err(e),
                Ok(rest) => Ok(seq![ConnV { cap: conns[k].cap, ports: refs }] + rest),
            },
        }
    }
}

/// Expands graph `gi` under `prefix`: its leaf nodes (prefixed) and its
/// connections, with those of every subgraph it references, in order.
pub open spec fn expand_spec(cfg: ConfigV, gi: int, prefix: Seq<char>, anc: Seq<Seq<char>>) -> Result<
    (Seq<NodeV>, Seq<ConnV>),
    ErrorV,
>
    decreases names_left(cfg.graphs, anc), 0nat, 0nat,
{
    if !(0 <= gi < cfg.graphs.len()) {
        Ok((seq![], seq![]))
    } else {
        let g = cfg.graphs[gi];
        if anc.contains(g.name) {
            Err(ErrorV::SubgraphCycle(g.name))
        } else {
            proof {
                lemma_names_left_shrinks(cfg.graphs, anc, gi);
            }
            let anc2 = anc.push(g.name);
            match expand_nodes_spec(cfg, gi, prefix, anc2, 0) {
                Err(e) => Err(e),
                Ok((ns, cs)) => match expand_conns_spec(cfg, gi, prefix, anc2, 0) {
                    Err(e) => Err(e),
                    Ok(cs2) => Ok((ns, cs + cs2)),
                },
            }
        }
    }
}

/// Expands the nodes `nodes[k..]` of graph `gi`.
pub open spec fn expand_nodes_spec(
    cfg: ConfigV,
    gi: int,
    prefix: Seq<char>,
    anc: Seq<Seq<char>>,
    k: int,
) -> Result<(Seq<NodeV>, Seq<ConnV>), ErrorV>
    decreases names_left(cfg.graphs, anc), 1nat, cfg.graphs[gi].nodes.len() - k,
{
    let nodes = cfg.graphs[gi].nodes;
    if k < 0 || k >= nodes.len() {
        Ok((seq![], seq![]))
    } else {
        let nd = nodes[k];
        match subgraph_index(cfg, nd.ty) {
            Some(si) => match expand_spec(cfg, si, child_prefix(prefix, nd.name), anc) {
                Err(e) => Err(e),
                Ok(part) => then_parts(part, expand_nodes_spec(cfg, gi, prefix, anc, k + 1)),
            },
            None => then_parts(
                (seq![NodeV { name: prefix + nd.name, ty: nd.ty, args: nd.args }], seq![]),
                expand_nodes_spec(cfg, gi, prefix, anc, k + 1),
            ),
        }
    }
}

/// The flat configuration: the entry graph's name, its leaf nodes and
/// connections (through all subgraphs), its external ports resolved to
/// leaves, and its resources.
pub open spec fn flatten_spec(cfg: ConfigV) -> Result<ConfigV, ErrorV> {
    match first_graph_named(cfg.graphs, cfg.main) {
        None => Err(ErrorV::MainGraphNotFound(cfg.main)),
        Some(mi) => {
            let main = cfg.graphs[mi];
            match expand_spec(cfg, mi, seq![], seq![]) {
                Err(e) => Err(e),
                Ok((ns, cs)) => match resolve_ports_spec(cfg, mi, seq![], main.inputs, seq![main.name], 0) {
                    Err(e) => Err(e),
                    Ok(ins) => match resolve_ports_spec(cfg, mi, seq![], main.outputs, seq![main.name], 0) {
                        Err(e) => Err(e),
                        Ok(outs) => Ok(
                            ConfigV {
                                main: cfg.main,
                                graphs: seq![
                                    GraphV {
                                        name: main.name,
                                        nodes: ns,
                                        inputs: ins,
                                        outputs: outs,
                                        connections: cs,
                                        resources: main.resources,
                                    },
                                ],
                            },
                        ),
                    },
                },
            }
        },
    }
}


pub open spec fn then_conns(a: Seq<ConnV>, rest: Result<Seq<ConnV>, ErrorV>) -> Result<Seq<ConnV>, ErrorV> {
    match rest {
        Ok(b) => Ok(a + b),
        Err(e) => Err(e),
    }
}

pub open spec fn then_ports(a: Seq<PortV>, rest: Result<Seq<PortV>, ErrorV>) -> Result<Seq<PortV>, ErrorV> {
    match rest {
        Ok(b) => Ok(a + b),
        Err(e) => Err(e),
    }
}

/// Position of the graph that a node type refers to (the last graph of that name).
fn subgraph_of(cfg: &Config, ty: &str) -> (r: Option<usize>)
    ensures
        r matches Some(i) ==> subgraph_index(cfg@, ty@) == Some(i as int),
        r is None ==> subgraph_index(cfg@, ty@) is None,
        r matches Some(i) ==> i < cfg.graphs@.len(),
{
    let mut i = cfg.graphs.len();
    while i > 0
        invariant
            i <= cfg.graphs@.len(),
            forall|j: int| i <= j < cfg.graphs@.len() ==> cfg@.graphs[j].name != ty@,
        decreases i,
    {
        i -= 1;
        proof {
            assert(cfg@.graphs[i as int] == cfg.graphs@[i as int]@);
        }
        if str_eq(cfg.graphs[i].name.as_str(), ty) {
            proof {
                lemma_last_index_is(cfg@.graphs, graph_named(ty@), i as int);
            }
            return Some(i);
        }
    }
    proof {
        lemma_last_index(cfg@.graphs, graph_named(ty@));
        if let Some(k) = subgraph_index(cfg@, ty@) {
            assert(cfg@.graphs[k].name != ty@);
        }
    }
    None
}

/// Position of the first node named `name`.
pub(crate) fn node_position(nodes: &Vec<NodeConfig>, name: &str) -> (r: Option<usize>)
    ensures
        r matches Some(i) ==> first_index(nodes_view(nodes@), node_named(name@)) == Some(i as int)
            && i < nodes@.len(),
        r is None ==> first_index(nodes_view(nodes@), node_named(name@)) is None,
{
    let ghost nv = nodes_view(nodes@);
    let mut i: usize = 0;
    while i < nodes.len()
        invariant
            i <= nodes@.len(),
            nv == nodes_view(nodes@),
            forall|j: int| 0 <= j < i ==> nv[j].name != name@,
        decreases nodes@.len() - i,
    {
        proof {
            assert(nv[i as int] == nodes@[i as int]@);
        }
        if str_eq(nodes[i].name.as_str(), name) {
            proof {
                lemma_first_index_is(nv, node_named(name@), i as int);
            }
            return Some(i);
        }
        i += 1;
    }
    proof {
        lemma_first_index(nv, node_named(name@));
        if let Some(k) = first_index(nv, node_named(name@)) {
            assert(nv[k].name != name@);
        }
    }
    None
}

/// The first boundary port (inputs, then outputs) of `sub` named `name`.
fn boundary_port<'a>(sub: &'a GraphConfig, name: &str) -> (r: Option<&'a PortConfig>)
    ensures
        match first_index(sub@.inputs + sub@.outputs, port_named(name@)) {
            Some(i) => r matches Some(p) && p@ == (sub@.inputs + sub@.outputs)[i],
            None => r is None,
        },
{
    let ghost decls = sub@.inputs + sub@.outputs;
    let ghost nin = sub@.inputs.len();
    let mut i: usize = 0;
    while i < sub.inputs.len()
        invariant
            i <= sub.inputs@.len(),
            decls == sub@.inputs + sub@.outputs,
            nin == sub.inputs@.len(),
            forall|j: int| 0 <= j < i ==> decls[j].name != name@,
        decreases sub.inputs@.len() - i,
    {
        proof {
            assert(decls[i as int] == sub.inputs@[i as int]@);
        }
        if str_eq(sub.inputs[i].name.as_str(), name) {
            proof {
                lemma_first_index_is(decls, port_named(name@), i as int);
            }
            return Some(&sub.inputs[i]);
        }
        i += 1;
    }
    let mut k: usize = 0;
    while k < sub.outputs.len()
        invariant
            k <= sub.outputs@.len(),
            decls == sub@.inputs + sub@.outputs,
            nin == sub.inputs@.len(),
            forall|j: int| 0 <= j < nin + k ==> decls[j].name != name@,
        decreases sub.outputs@.len() - k,
    {
        proof {
            assert(decls[nin + k] == sub.outputs@[k as int]@);
        }
        if str_eq(sub.outputs[k].name.as_str(), name) {
            proof {
                lemma_first_index_is(decls, port_named(name@), nin + k);
            }
            return Some(&sub.outputs[k]);
        }
        k += 1;
    }
    proof {
        lemma_first_index(decls, port_named(name@));
        if let Some(x) = first_index(decls, port_named(name@)) {
            assert(decls[x].name != name@);
        }
    }
    None
}

/// Whether `name` is on the path `anc`.
fn on_path(anc: &Vec<String>, name: &str) -> (r: bool)
    ensures
        r == strings_view(anc@).contains(name@),
{
    let mut i: usize = 0;
    while i < anc.len()
        invariant
            i <= anc@.len(),
            forall|j: int| 0 <= j < i ==> strings_view(anc@)[j] != name@,
        decreases anc@.len() - i,
    {
        if str_eq(anc[i].as_str(), name) {
            proof {
                assert(strings_view(anc@)[i as int] == name@);
            }
            return true;
        }
        i += 1;
    }
    false
}

/// `a`, `b`, `c` and `d` one after another.
fn concat4(a: &str, b: &str, c: &str, d: &str) -> (r: String)
    ensures
        r@ == a@ + b@ + c@ + d@,
{
    let mut r = concat3(a, b, c);
    r.append(d);
    r
}

/// Resolves one reference and appends its leaf references to `out`.
fn resolve_ref(
    cfg: &Config,
    gi: usize,
    prefix: &str,
    r: &str,
    anc: &mut Vec<String>,
    out: &mut Vec<String>,
) -> (res: Result<(), Error>)
    requires
        gi < cfg.graphs@.len(),
    ensures
        match resolve_ref_spec(cfg@, gi as int, prefix@, r@, strings_view(old(anc)@)) {
            Ok(refs) => res is Ok && strings_view(final(out)@) == strings_view(old(out)@) + refs
                && strings_view(final(anc)@) == strings_view(old(anc)@),
            Err(e) => res matches Err(x) && x@ == e,
        },
    decreases names_left(cfg@.graphs, strings_view(old(anc)@)), 0nat,
{
    let ghost anc0 = strings_view(anc@);
    let pref = match PortRef::parse(r) {
        Ok(p) => p,
        Err(e) => return Err(e),
    };
    let g = &cfg.graphs[gi];
    proof {
        assert(cfg@.graphs[gi as int] == g@);
    }
    let ni = match node_position(&g.nodes, pref.node) {
        Some(i) => i,
        None => return Err(Error::UnknownNode(owned(pref.node))),
    };
    proof {
        lemma_first_index(nodes_view(g.nodes@), node_named(pref.node@));
        assert(g@.nodes[ni as int] == g.nodes@[ni as int]@);
    }
    match subgraph_of(cfg, g.nodes[ni].ty.as_str()) {
        None => {
            let leaf = concat4(prefix, pref.node, ":", pref.port);
            proof {
                reveal_strlit(":");
                assert(leaf@ == leaf_ref(prefix@, pref.node@, pref.port@));
            }
            out.push(leaf);
            proof {
                assert(strings_view(out@) =~= strings_view(old(out)@) + seq![leaf_ref(prefix@, pref.node@, pref.port@)]);
            }
            Ok(())
        },
        Some(si) => {
            let sub = &cfg.graphs[si];
            proof {
                assert(cfg@.graphs[si as int] == sub@);
            }
            let decl = match boundary_port(sub, pref.port) {
                Some(d) => d,
                None => {
                    proof {
                        assert(port_ref_spec(r@) == Some((pref.node@, pref.port@)));
                        assert(first_index(cfg@.graphs[gi as int].nodes, node_named(pref.node@)) == Some(ni as int));
                        assert(subgraph_index(cfg@, cfg@.graphs[gi as int].nodes[ni as int].ty) == Some(si as int));
                        assert(first_index(sub@.inputs + sub@.outputs, port_named(pref.port@)) is None);
                    }
                    return Err(Error::UnknownPort { node: owned(pref.node), port: owned(pref.port) });
                },
            };
            if on_path(anc, sub.name.as_str()) {
                return Err(Error::SubgraphCycle(sub.name.clone()));
            }
            let cp = concat3(prefix, pref.node, "/");
            proof {
                reveal_strlit("/");
                assert(cp@ == child_prefix(prefix@, pref.node@));
                lemma_names_left_shrinks(cfg@.graphs, anc0, si as int);
            }
            anc.push(sub.name.clone());
            proof {
                assert(strings_view(anc@) =~= anc0.push(sub@.name));
            }
            let refs = resolve_refs(cfg, si, cp.as_str(), &decl.ports, anc);
            match refs {
                Ok(v) => {
                    let ghost out_before = out@;
                    let ghost pre = anc@;
                    let mut v = v;
                    let ghost vv = v@;
                    out.append(&mut v);
                    anc.pop();
                    proof {
                        assert(strings_view(out@) =~= strings_view(out_before) + strings_view(vv));
                        assert(strings_view(pre) == anc0.push(sub@.name));
                        assert forall|j: int| 0 <= j < anc@.len() implies strings_view(anc@)[j] == anc0[j] by {
                            assert(anc@[j] == pre[j]);
                            assert(strings_view(pre)[j] == anc0.push(sub@.name)[j]);
                        }
                        assert(strings_view(anc@) =~= anc0);
                    }
                    Ok(())
                },
                Err(e) => Err(e),
            }
        },
    }
}

/// Resolves `refs` one after another; the joined leaf references.
fn resolve_refs(
    cfg: &Config,
    gi: usize,
    prefix: &str,
    refs: &Vec<String>,
    anc: &mut Vec<String>,
) -> (res: Result<Vec<String>, Error>)
    requires
        gi < cfg.graphs@.len(),
    ensures
        match resolve_list_spec(cfg@, gi as int, prefix@, strings_view(refs@), strings_view(old(anc)@), 0) {
            Ok(v) => res matches Ok(o) && strings_view(o@) == v
                && strings_view(final(anc)@) == strings_view(old(anc)@),
            Err(e) => res matches Err(x) && x@ == e,
        },
    decreases names_left(cfg@.graphs, strings_view(old(anc)@)), 1nat,
{
    let ghost anc0 = strings_view(anc@);
    let ghost rv = strings_view(refs@);
    let mut out: Vec<String> = Vec::new();
    let mut k: usize = 0;
    while k < refs.len()
        invariant
            gi < cfg.graphs@.len(),
            k <= refs@.len(),
            rv == strings_view(refs@),
            anc0 == strings_view(old(anc)@),
            strings_view(anc@) == anc0,
            resolve_list_spec(cfg@, gi as int, prefix@, rv, anc0, 0) == then_refs(
                strings_view(out@),
                resolve_list_spec(cfg@, gi as int, prefix@, rv, anc0, k as int),
            ),
        decreases refs@.len() - k,
    {
        let ghost before = strings_view(out@);
        proof {
            assert(rv[k as int] == refs@[k as int]@);
        }
        match resolve_ref(cfg, gi, prefix, refs[k].as_str(), anc, &mut out) {
            Ok(()) => {},
            Err(e) => {
                return Err(e);
            },
        }
        proof {
            let a = strings_view(out@).skip(before.len() as int);
            assert(strings_view(out@) =~= before + a);
            match resolve_list_spec(cfg@, gi as int, prefix@, rv, anc0, k + 1) {
                Ok(b) => {
                    assert(before + (a + b) =~= (before + a) + b);
                },
                Err(_) => {},
            }
        }
        k += 1;
    }
    proof {
        assert(strings_view(out@) + seq![] =~= strings_view(out@));
    }
    Ok(out)
}

/// Expands graph `gi` under `prefix`, appending its leaf nodes and its
/// connections (with those of its subgraphs) to the accumulators.
fn expand(
    cfg: &Config,
    gi: usize,
    prefix: &str,
    anc: &mut Vec<String>,
    flat_nodes: &mut Vec<NodeConfig>,
    flat_conns: &mut Vec<ConnConfig>,
) -> (res: Result<(), Error>)
    requires
        gi < cfg.graphs@.len(),
    ensures
        match expand_spec(cfg@, gi as int, prefix@, strings_view(old(anc)@)) {
            Ok((ns, cs)) => res is Ok && nodes_view(final(flat_nodes)@) == nodes_view(old(flat_nodes)@)
                + ns && conns_view(final(flat_conns)@) == conns_view(old(flat_conns)@) + cs
                && strings_view(final(anc)@) == strings_view(old(anc)@),
            Err(e) => res matches Err(x) && x@ == e,
        },
    decreases names_left(cfg@.graphs, strings_view(old(anc)@)),
{
    let ghost anc0 = strings_view(anc@);
    let ghost n0 = nodes_view(flat_nodes@);
    let ghost c0 = conns_view(flat_conns@);
    let g = &cfg.graphs[gi];
    proof {
        assert(cfg@.graphs[gi as int] == g@);
    }
    if on_path(anc, g.name.as_str()) {
        return Err(Error::SubgraphCycle(g.name.clone()));
    }
    proof {
        lemma_names_left_shrinks(cfg@.graphs, anc0, gi as int);
    }
    anc.push(g.name.clone());
    let ghost anc2 = anc0.push(g@.name);
    proof {
        assert(strings_view(anc@) =~= anc2);
    }
    let ghost mut acc_n: Seq<NodeV> = seq![];
    let ghost mut acc_c: Seq<ConnV> = seq![];
    proof {
        assert(n0 + acc_n =~= n0);
        assert(c0 + acc_c =~= c0);
    }
    let mut k: usize = 0;
    while k < g.nodes.len()
        invariant
            gi < cfg.graphs@.len(),
            *g == cfg.graphs@[gi as int],
            g@ == cfg@.graphs[gi as int],
            k <= g.nodes@.len(),
            anc0 == strings_view(old(anc)@),
            strings_view(anc@) == anc2,
            anc2 == anc0.push(g@.name),
            !anc0.contains(g@.name),
            names_left(cfg@.graphs, anc2) < names_left(cfg@.graphs, anc0),
            nodes_view(flat_nodes@) == n0 + acc_n,
            conns_view(flat_conns@) == c0 + acc_c,
            expand_nodes_spec(cfg@, gi as int, prefix@, anc2, 0) == then_parts(
                (acc_n, acc_c),
                expand_nodes_spec(cfg@, gi as int, prefix@, anc2, k as int),
            ),
        decreases g.nodes@.len() - k,
    {
        let nd = &g.nodes[k];
        proof {
            assert(g@.nodes[k as int] == nd@);
        }
        match subgraph_of(cfg, nd.ty.as_str()) {
            Some(si) => {
                let cp = concat3(prefix, nd.name.as_str(), "/");
                proof {
                    reveal_strlit("/");
                    assert(cp@ == child_prefix(prefix@, nd@.name));
                }
                let ghost nb = nodes_view(flat_nodes@);
                let ghost cb = conns_view(flat_conns@);
                match expand(cfg, si, cp.as_str(), anc, flat_nodes, flat_conns) {
                    Ok(()) => {},
                    Err(e) => {
                        return Err(e);
                    },
                }
                proof {
                    let pn = nodes_view(flat_nodes@).skip(nb.len() as int);
                    let pc = conns_view(flat_conns@).skip(cb.len() as int);
                    assert(nodes_view(flat_nodes@) =~= nb + pn);
                    assert(conns_view(flat_conns@) =~= cb + pc);
                    assert(n0 + (acc_n + pn) =~= nodes_view(flat_nodes@));
                    assert(c0 + (acc_c + pc) =~= conns_view(flat_conns@));
                    match expand_nodes_spec(cfg@, gi as int, prefix@, anc2, k + 1) {
                        Ok((a, b)) => {
                            assert(acc_n + (pn + a) =~= (acc_n + pn) + a);
                            assert(acc_c + (pc + b) =~= (acc_c + pc) + b);
                        },
                        Err(_) => {},
                    }
                    acc_n = acc_n + pn;
                    acc_c = acc_c + pc;
                }
            },
            None => {
                let leaf = NodeConfig {
                    name: concat2(prefix, nd.name.as_str()),
                    ty: nd.ty.clone(),
                    args: clone_args(&nd.args),
                };
                let ghost lv = leaf@;
                let ghost fb = flat_nodes@;
                proof {
                    lemma_nodes_view_push(fb, leaf);
                }
                flat_nodes.push(leaf);
                proof {
                    assert(lv == NodeV { name: prefix@ + nd@.name, ty: nd@.ty, args: nd@.args });
                    assert(nodes_view(flat_nodes@) =~= n0 + (acc_n + seq![lv]));
                    assert(c0 + (acc_c + seq![]) =~= c0 + acc_c);
                    match expand_nodes_spec(cfg@, gi as int, prefix@, anc2, k + 1) {
                        Ok((a, b)) => {
                            assert(acc_n + (seq![lv] + a) =~= (acc_n + seq![lv]) + a);
                            assert(acc_c + (seq![] + b) =~= (acc_c + seq![]) + b);
                        },
                        Err(_) => {},
                    }
                    acc_n = acc_n + seq![lv];
                    acc_c = acc_c + seq![];
                }
            },
        }
        k += 1;
    }
    proof {
        assert(acc_n + seq![] =~= acc_n);
        assert(acc_c + seq![] =~= acc_c);
    }
    let ghost mut acc_cs: Seq<ConnV> = seq![];
    let mut j: usize = 0;
    while j < g.connections.len()
        invariant
            gi < cfg.graphs@.len(),
            *g == cfg.graphs@[gi as int],
            g@ == cfg@.graphs[gi as int],
            j <= g.connections@.len(),
            anc0 == strings_view(old(anc)@),
            strings_view(anc@) == anc2,
            anc2 == anc0.push(g@.name),
            !anc0.contains(g@.name),
            nodes_view(flat_nodes@) == n0 + acc_n,
            conns_view(flat_conns@) == c0 + acc_c + acc_cs,
            expand_nodes_spec(cfg@, gi as int, prefix@, anc2, 0) == Ok::<(Seq<NodeV>, Seq<ConnV>), ErrorV>((acc_n, acc_c)),
            expand_conns_spec(cfg@, gi as int, prefix@, anc2, 0) == then_conns(
                acc_cs,
                expand_conns_spec(cfg@, gi as int, prefix@, anc2, j as int),
            ),
        decreases g.connections@.len() - j,
    {
        let conn = &g.connections[j];
        proof {
            assert(g@.connections[j as int] == conn@);
        }
        let refs = match resolve_refs(cfg, gi, prefix, &conn.ports, anc) {
            Ok(v) => v,
            Err(e) => {
                return Err(e);
            },
        };
        let c = ConnConfig { cap: conn.cap, ports: refs };
        let ghost cv = c@;
        let ghost fb = flat_conns@;
        proof {
            lemma_conns_view_push(fb, c);
        }
        flat_conns.push(c);
        proof {
            assert(conns_view(flat_conns@) =~= c0 + acc_c + (acc_cs + seq![cv]));
            match expand_conns_spec(cfg@, gi as int, prefix@, anc2, j + 1) {
                Ok(b) => {
                    assert(acc_cs + (seq![cv] + b) =~= (acc_cs + seq![cv]) + b);
                },
                Err(_) => {},
            }
            acc_cs = acc_cs + seq![cv];
        }
        j += 1;
    }
    let ghost pre = anc@;
    anc.pop();
    proof {
        assert(acc_cs + seq![] =~= acc_cs);
        assert(strings_view(pre) == anc0.push(g@.name));
        assert forall|i: int| 0 <= i < anc@.len() implies strings_view(anc@)[i] == anc0[i] by {
            assert(anc@[i] == pre[i]);
            assert(strings_view(pre)[i] == anc0.push(g@.name)[i]);
        }
        assert(strings_view(anc@) =~= anc0);
        assert(c0 + acc_c + acc_cs =~= c0 + (acc_c + acc_cs));
    }
    Ok(())
}

/// Resolves the references of the external ports `ports` of graph `gi`.
fn resolve_ports(
    cfg: &Config,
    gi: usize,
    prefix: &str,
    ports: &Vec<PortConfig>,
    anc: &mut Vec<String>,
) -> (res: Result<Vec<PortConfig>, Error>)
    requires
        gi < cfg.graphs@.len(),
    ensures
        match resolve_ports_spec(cfg@, gi as int, prefix@, ports_view(ports@), strings_view(old(anc)@), 0) {
            Ok(v) => res matches Ok(o) && ports_view(o@) == v && strings_view(final(anc)@) == strings_view(old(anc)@),
            Err(e) => res matches Err(x) && x@ == e,
        },
{
    let ghost anc0 = strings_view(anc@);
    let ghost pv = ports_view(ports@);
    let mut out: Vec<PortConfig> = Vec::new();
    let mut k: usize = 0;
    while k < ports.len()
        invariant
            gi < cfg.graphs@.len(),
            k <= ports@.len(),
            pv == ports_view(ports@),
            anc0 == strings_view(old(anc)@),
            strings_view(anc@) == anc0,
            resolve_ports_spec(cfg@, gi as int, prefix@, pv, anc0, 0) == then_ports(
                ports_view(out@),
                resolve_ports_spec(cfg@, gi as int, prefix@, pv, anc0, k as int),
            ),
        decreases ports@.len() - k,
    {
        let pc = &ports[k];
        proof {
            assert(pv[k as int] == pc@);
        }
        let refs = match resolve_refs(cfg, gi, prefix, &pc.ports, anc) {
            Ok(v) => v,
            Err(e) => {
                proof {
                    assert(pv[k as int].ports == strings_view(pc.ports@));
                    assert(resolve_ports_spec(cfg@, gi as int, prefix@, pv, anc0, k as int) == Err::<Seq<PortV>, ErrorV>(e@));
                }
                return Err(e);
            },
        };
        let p = PortConfig { name: pc.name.clone(), cap: pc.cap, ports: refs };
        let ghost before = ports_view(out@);
        let ghost ob = out@;
        let ghost p_v = p@;
        proof {
            lemma_ports_view_push(ob, p);
        }
        out.push(p);
        proof {
            assert(ports_view(out@) == before + seq![p_v]);
            match resolve_ports_spec(cfg@, gi as int, prefix@, pv, anc0, k + 1) {
                Ok(b) => {
                    assert(before + (seq![p_v] + b) =~= (before + seq![p_v]) + b);
                },
                Err(_) => {},
            }
        }
        k += 1;
    }
    proof {
        assert(ports_view(out@) + seq![] =~= ports_view(out@));
    }
    Ok(out)
}

/// Position of the entry graph (the first graph named `main`).
fn main_position(config: &Config) -> (r: Option<usize>)
    ensures
        r matches Some(i) ==> first_graph_named(config@.graphs, config@.main) == Some(i as int)
            && i < config.graphs@.len(),
        r is None ==> first_graph_named(config@.graphs, config@.main) is None,
{
    proof {
        lemma_first_graph_named(config@.graphs, config@.main);
    }
    let mut i: usize = 0;
    while i < config.graphs.len()
        invariant
            i <= config.graphs@.len(),
            forall|j: int| 0 <= j < i ==> config@.graphs[j].name != config@.main,
        decreases config.graphs@.len() - i,
    {
        proof {
            assert(config@.graphs[i as int] == config.graphs@[i as int]@);
        }
        if str_eq(config.graphs[i].name.as_str(), config.main.as_str()) {
            proof {
                lemma_first_graph_named(config@.graphs, config@.main);
                if let Some(k) = first_graph_named(config@.graphs, config@.main) {
                    if k < i {
                        assert(config@.graphs[k].name != config@.main);
                    } else if k > i {
                        assert(config@.graphs[i as int].name != config@.main);
                    }
                }
            }
            return Some(i);
        }
        i += 1;
    }
    proof {
        lemma_first_graph_named(config@.graphs, config@.main);
        if let Some(k) = first_graph_named(config@.graphs, config@.main) {
            assert(config@.graphs[k].name != config@.main);
        }
    }
    None
}

/// Flattens a configuration into one graph: the entry graph with every
/// subgraph reference expanded inline and every reference resolved to a leaf.
/// `main` naming no graph gives `MainGraphNotFound`; a graph reaching itself
/// through references gives `SubgraphCycle`; a malformed reference,
/// an undefined node, or an undefined subgraph boundary port gives
/// `BadPortRef`, `UnknownNode` or `UnknownPort`.
pub fn flatten(config: &Config) -> (r: Result<Config, Error>)
    ensures
        match flatten_spec(config@) {
            Ok(c) => r matches Ok(x) && x@ == c,
            Err(e) => r matches Err(x) && x@ == e,
        },
{
    let mi = match main_position(config) {
        Some(i) => i,
        None => {
            return Err(Error::MainGraphNotFound(config.main.clone()));
        },
    };
    let main = &config.graphs[mi];
    proof {
        assert(config@.graphs[mi as int] == main@);
    }
    let mut nodes: Vec<NodeConfig> = Vec::new();
    let mut conns: Vec<ConnConfig> = Vec::new();
    let mut anc: Vec<String> = Vec::new();
    let empty = "";
    proof {
        reveal_strlit("");
        assert(strings_view(anc@) =~= Seq::<Seq<char>>::empty());
        assert(nodes_view(nodes@) =~= Seq::<NodeV>::empty());
        assert(conns_view(conns@) =~= Seq::<ConnV>::empty());
    }
    match expand(config, mi, empty, &mut anc, &mut nodes, &mut conns) {
        Ok(()) => {},
        Err(e) => {
            return Err(e);
        },
    }
    let mut path: Vec<String> = Vec::new();
    path.push(main.name.clone());
    proof {
        assert(strings_view(path@) =~= seq![main@.name]);
    }
    let inputs = match resolve_ports(config, mi, empty, &main.inputs, &mut path) {
        Ok(v) => v,
        Err(e) => {
            return Err(e);
        },
    };
    let outputs = match resolve_ports(config, mi, empty, &main.outputs, &mut path) {
        Ok(v) => v,
        Err(e) => {
            return Err(e);
        },
    };
    let flat = GraphConfig {
        name: main.name.clone(),
        nodes,
        inputs,
        outputs,
        connections: conns,
        resources: clone_resources(&main.resources),
    };
    let ghost fv = flat@;
    let mut graphs: Vec<GraphConfig> = Vec::new();
    graphs.push(flat);
    let out = Config { main: config.main.clone(), graphs };
    proof {
        assert(out@.graphs =~= seq![fv]);
        assert(Seq::<NodeV>::empty() + fv.nodes =~= fv.nodes);
        assert(Seq::<ConnV>::empty() + fv.connections =~= fv.connections);
    }
    Ok(out)
}

/// A reference of graph `gi` that is well formed and names one of its nodes.
pub open spec fn names_own_node(cfg: ConfigV, gi: int, r: Seq<char>) -> bool {
    port_ref_spec(r) matches Some((node, _port)) && first_index(
        cfg.graphs[gi].nodes,
        node_named(node),
    ) is Some
}

/// Graph `gi` references no subgraph and every reference it writes is
/// well formed and names one of its own nodes.
pub open spec fn plain_graph(cfg: ConfigV, gi: int) -> bool {
    let g = cfg.graphs[gi];
    &&& forall|i: int| 0 <= i < g.nodes.len() ==> subgraph_index(cfg, #[trigger] g.nodes[i].ty) is None
    &&& forall|i: int, j: int|
        0 <= i < g.inputs.len() && 0 <= j < g.inputs[i].ports.len() ==> names_own_node(cfg, gi, #[trigger] g.inputs[i].ports[j])
    &&& forall|i: int, j: int|
        0 <= i < g.outputs.len() && 0 <= j < g.outputs[i].ports.len() ==> names_own_node(cfg, gi, #[trigger] g.outputs[i].ports[j])
    &&& forall|i: int, j: int|
        0 <= i < g.connections.len() && 0 <= j < g.connections[i].ports.len() ==> names_own_node(cfg, gi, #[trigger] g.connections[i].ports[j])
}

proof fn lemma_resolve_plain_ref(cfg: ConfigV, gi: int, r: Seq<char>, anc: Seq<Seq<char>>)
    requires
        0 <= gi < cfg.graphs.len(),
        names_own_node(cfg, gi, r),
        forall|i: int| 0 <= i < cfg.graphs[gi].nodes.len() ==> subgraph_index(cfg, #[trigger] cfg.graphs[gi].nodes[i].ty) is None,
    ensures
        resolve_ref_spec(cfg, gi, seq![], r, anc) == Ok::<Seq<Seq<char>>, ErrorV>(seq![r]),
{
    let (node, port) = port_ref_spec(r)->0;
    let ni = first_index(cfg.graphs[gi].nodes, node_named(node))->0;
    lemma_first_index(cfg.graphs[gi].nodes, node_named(node));
    assert(subgraph_index(cfg, cfg.graphs[gi].nodes[ni].ty) is None);
    lemma_split_once_rejoin(r, ':');
    assert(leaf_ref(seq![], node, port) =~= r);
}

proof fn lemma_resolve_plain_list(cfg: ConfigV, gi: int, refs: Seq<Seq<char>>, anc: Seq<Seq<char>>, k: int)
    requires
        0 <= gi < cfg.graphs.len(),
        0 <= k <= refs.len(),
        forall|j: int| 0 <= j < refs.len() ==> names_own_node(cfg, gi, #[trigger] refs[j]),
        forall|i: int| 0 <= i < cfg.graphs[gi].nodes.len() ==> subgraph_index(cfg, #[trigger] cfg.graphs[gi].nodes[i].ty) is None,
    ensures
        resolve_list_spec(cfg, gi, seq![], refs, anc, k) == Ok::<Seq<Seq<char>>, ErrorV>(refs.skip(k)),
    decreases refs.len() - k,
{
    if k < refs.len() {
        lemma_resolve_plain_ref(cfg, gi, refs[k], anc);
        lemma_resolve_plain_list(cfg, gi, refs, anc, k + 1);
        assert(seq![refs[k]] + refs.skip(k + 1) =~= refs.skip(k));
    } else {
        assert(refs.skip(k) =~= Seq::<Seq<char>>::empty());
    }
}

proof fn lemma_plain_ports(cfg: ConfigV, gi: int, ports: Seq<PortV>, anc: Seq<Seq<char>>, k: int)
    requires
        0 <= gi < cfg.graphs.len(),
        0 <= k <= ports.len(),
        forall|i: int, j: int| 0 <= i < ports.len() && 0 <= j < ports[i].ports.len() ==> names_own_node(cfg, gi, #[trigger] ports[i].ports[j]),
        forall|i: int| 0 <= i < cfg.graphs[gi].nodes.len() ==> subgraph_index(cfg, #[trigger] cfg.graphs[gi].nodes[i].ty) is None,
    ensures
        resolve_ports_spec(cfg, gi, seq![], ports, anc, k) == Ok::<Seq<PortV>, ErrorV>(ports.skip(k)),
    decreases ports.len() - k,
{
    if k < ports.len() {
        let refs = ports[k].ports;
        assert forall|j: int| 0 <= j < refs.len() implies names_own_node(cfg, gi, #[trigger] refs[j]) by {
            assert(names_own_node(cfg, gi, ports[k].ports[j]));
        }
        lemma_resolve_plain_list(cfg, gi, refs, anc, 0);
        assert(refs.skip(0) =~= refs);
        lemma_plain_ports(cfg, gi, ports, anc, k + 1);
        assert(seq![PortV { name: ports[k].name, cap: ports[k].cap, ports: refs }] + ports.skip(k + 1) =~= ports.skip(k));
    } else {
        assert(ports.skip(k) =~= Seq::<PortV>::empty());
    }
}

proof fn lemma_plain_conns(cfg: ConfigV, gi: int, anc: Seq<Seq<char>>, k: int)
    requires
        0 <= gi < cfg.graphs.len(),
        0 <= k <= cfg.graphs[gi].connections.len(),
        plain_graph(cfg, gi),
    ensures
        expand_conns_spec(cfg, gi, seq![], anc, k) == Ok::<Seq<ConnV>, ErrorV>(cfg.graphs[gi].connections.skip(k)),
    decreases cfg.graphs[gi].connections.len() - k,
{
    let conns = cfg.graphs[gi].connections;
    if k < conns.len() {
        let refs = conns[k].ports;
        assert forall|j: int| 0 <= j < refs.len() implies names_own_node(cfg, gi, #[trigger] refs[j]) by {
            assert(names_own_node(cfg, gi, cfg.graphs[gi].connections[k].ports[j]));
        }
        lemma_resolve_plain_list(cfg, gi, refs, anc, 0);
        assert(refs.skip(0) =~= refs);
        lemma_plain_conns(cfg, gi, anc, k + 1);
        assert(seq![ConnV { cap: conns[k].cap, ports: refs }] + conns.skip(k + 1) =~= conns.skip(k));
    } else {
        assert(conns.skip(k) =~= Seq::<ConnV>::empty());
    }
}

proof fn lemma_plain_nodes(cfg: ConfigV, gi: int, anc: Seq<Seq<char>>, k: int)
    requires
        0 <= gi < cfg.graphs.len(),
        0 <= k <= cfg.graphs[gi].nodes.len(),
        plain_graph(cfg, gi),
    ensures
        expand_nodes_spec(cfg, gi, seq![], anc, k) == Ok::<(Seq<NodeV>, Seq<ConnV>), ErrorV>(
            (cfg.graphs[gi].nodes.skip(k), seq![]),
        ),
    decreases cfg.graphs[gi].nodes.len() - k,
{
    let nodes = cfg.graphs[gi].nodes;
    if k < nodes.len() {
        assert(subgraph_index(cfg, nodes[k].ty) is None);
        lemma_plain_nodes(cfg, gi, anc, k + 1);
        let nd = nodes[k];
        assert(Seq::<char>::empty() + nd.name =~= nd.name);
        assert(seq![NodeV { name: Seq::<char>::empty() + nd.name, ty: nd.ty, args: nd.args }] + nodes.skip(k + 1) =~= nodes.skip(k));
        assert(Seq::<ConnV>::empty() + Seq::<ConnV>::empty() =~= Seq::<ConnV>::empty());
    } else {
        assert(nodes.skip(k) =~= Seq::<NodeV>::empty());
    }
}

/// Flattening is the identity on a configuration whose entry graph references
/// no subgraph and whose references are well formed and name its own nodes:
/// the result is that one graph, unchanged.
pub proof fn law_flatten_identity_without_subgraphs(cfg: ConfigV)
    requires
        first_graph_named(cfg.graphs, cfg.main) is Some,
        plain_graph(cfg, first_graph_named(cfg.graphs, cfg.main)->0),
    ensures
        flatten_spec(cfg) == Ok::<ConfigV, ErrorV>(
            ConfigV { main: cfg.main, graphs: seq![cfg.graphs[first_graph_named(cfg.graphs, cfg.main)->0]] },
        ),
{
    lemma_first_graph_named(cfg.graphs, cfg.main);
    let mi = first_graph_named(cfg.graphs, cfg.main)->0;
    let main = cfg.graphs[mi];
    let anc2 = Seq::<Seq<char>>::empty().push(main.name);
    lemma_plain_nodes(cfg, mi, anc2, 0);
    lemma_plain_conns(cfg, mi, anc2, 0);
    assert(main.nodes.skip(0) =~= main.nodes);
    assert(main.connections.skip(0) =~= main.connections);
    assert(Seq::<ConnV>::empty() + main.connections =~= main.connections);
    lemma_plain_ports(cfg, mi, main.inputs, seq![main.name], 0);
    lemma_plain_ports(cfg, mi, main.outputs, seq![main.name], 0);
    assert(main.inputs.skip(0) =~= main.inputs);
    assert(main.outputs.skip(0) =~= main.outputs);
    assert(!Seq::<Seq<char>>::empty().contains(main.name));
}

/// Whether `s` begins with `p`.
pub open spec fn starts_with(s: Seq<char>, p: Seq<char>) -> bool {
    p.len() <= s.len() && s.subrange(0, p.len() as int) =~= p
}

/// A text begins with its own front part.
proof fn lemma_starts_with_append(a: Seq<char>, b: Seq<char>)
    ensures
        starts_with(a + b, a),
{
    assert((a + b).subrange(0, a.len() as int) =~= a);
}

/// A text that begins with `a + b` begins with `a`.
proof fn lemma_starts_with_front(x: Seq<char>, a: Seq<char>, b: Seq<char>)
    requires
        starts_with(x, a + b),
    ensures
        starts_with(x, a),
{
    assert(x.subrange(0, a.len() as int) =~= (a + b).subrange(0, a.len() as int));
    assert((a + b).subrange(0, a.len() as int) =~= a);
}

/// Every reference of every connection of `cs` begins with `p`.
pub open spec fn conns_under(cs: Seq<ConnV>, p: Seq<char>) -> bool {
    forall|j: int, m: int| 0 <= j < cs.len() && 0 <= m < cs[j].ports.len() ==> starts_with(#[trigger] cs[j].ports[m], p)
}

/// A flattened node name under `prefix` comes from node `nd` of the graph
/// being expanded: it is `prefix` and `nd`'s name when `nd` is a leaf, and
/// it begins with `prefix`, `nd`'s name and "/" when `nd` references a
/// subgraph.
pub open spec fn named_from(name: Seq<char>, prefix: Seq<char>, nd: NodeV) -> bool {
    ||| name == prefix + nd.name
    ||| starts_with(name, prefix + nd.name + seq!['/'])
}

/// A flattened node name under `prefix` comes from one of the nodes `nodes`
/// ([`named_from`]).
pub open spec fn named_after(name: Seq<char>, prefix: Seq<char>, nodes: Seq<NodeV>) -> bool {
    exists|k: int| 0 <= k < nodes.len() && #[trigger] named_from(name, prefix, nodes[k])
}

/// Resolving a reference `node:port` written under `prefix` gives leaf
/// references that keep the whole prefix and the node: the reference
/// `prefix` + `node:port` itself for a leaf node, and references beginning
/// with `prefix`, `node` and "/" through a subgraph, so prefixes stack at
/// every level.  A list of references resolves to references that all begin
/// with `prefix`.
pub proof fn law_resolved_refs_keep_the_prefix(cfg: ConfigV, gi: int, prefix: Seq<char>, r: Seq<char>, anc: Seq<Seq<char>>)
    ensures
        match (resolve_ref_spec(cfg, gi, prefix, r, anc), port_ref_spec(r)) {
            (Ok(refs), Some((node, port))) => forall|m: int|
                0 <= m < refs.len() ==> #[trigger] refs[m] == prefix + node + seq![':'] + port
                    || starts_with(refs[m], prefix + node + seq!['/']),
            _ => true,
        },
    decreases names_left(cfg.graphs, anc), 0nat, 0nat,
{
    if 0 <= gi < cfg.graphs.len() {
        let g = cfg.graphs[gi];
        if let Some((node, port)) = port_ref_spec(r) {
            if let Some(ni) = first_index(g.nodes, node_named(node)) {
                if let Some(si) = subgraph_index(cfg, g.nodes[ni].ty) {
                    let sub = cfg.graphs[si];
                    let decls = sub.inputs + sub.outputs;
                    if let Some(pi) = first_index(decls, port_named(port)) {
                        if !anc.contains(sub.name) {
                            lemma_last_index(cfg.graphs, graph_named(g.nodes[ni].ty));
                            lemma_names_left_shrinks(cfg.graphs, anc, si);
                            law_resolved_lists_keep_the_prefix(cfg, si, child_prefix(prefix, node), decls[pi].ports, anc.push(sub.name), 0);
                        }
                    }
                }
            }
        }
    }
}

/// Resolving the references `refs[k..]` under `prefix` gives references that
/// all begin with `prefix`.
pub proof fn law_resolved_lists_keep_the_prefix(
    cfg: ConfigV,
    gi: int,
    prefix: Seq<char>,
    refs: Seq<Seq<char>>,
    anc: Seq<Seq<char>>,
    k: int,
)
    ensures
        resolve_list_spec(cfg, gi, prefix, refs, anc, k) matches Ok(out) ==> forall|m: int|
            0 <= m < out.len() ==> starts_with(#[trigger] out[m], prefix),
    decreases names_left(cfg.graphs, anc), 1nat, refs.len() - k,
{
    if 0 <= k < refs.len() {
        law_resolved_refs_keep_the_prefix(cfg, gi, prefix, refs[k], anc);
        law_resolved_lists_keep_the_prefix(cfg, gi, prefix, refs, anc, k + 1);
        if let Ok(a) = resolve_ref_spec(cfg, gi, prefix, refs[k], anc) {
            if let Ok(b) = resolve_list_spec(cfg, gi, prefix, refs, anc, k + 1) {
                let out = a + b;
                assert forall|m: int| 0 <= m < out.len() implies starts_with(#[trigger] out[m], prefix) by {
                    if m < a.len() {
                        assert(out[m] == a[m]);
                        if let Some((node, port)) = port_ref_spec(refs[k]) {
                            if a[m] == prefix + node + seq![':'] + port {
                                assert(prefix + node + seq![':'] + port == prefix + (node + seq![':'] + port));
                                lemma_starts_with_append(prefix, node + seq![':'] + port);
                            } else {
                                assert(prefix + node + seq!['/'] == prefix + (node + seq!['/']));
                                lemma_starts_with_front(a[m], prefix, node + seq!['/']);
                            }
                        }
                    } else {
                        assert(out[m] == b[m - a.len()]);
                    }
                }
            }
        }
    }
}

/// The connections `conns[k..]` of graph `gi`, resolved under `prefix`,
/// name only references that begin with `prefix`.
proof fn lemma_conns_keep_the_prefix(cfg: ConfigV, gi: int, prefix: Seq<char>, anc: Seq<Seq<char>>, k: int)
    ensures
        expand_conns_spec(cfg, gi, prefix, anc, k) matches Ok(cs) ==> conns_under(cs, prefix),
    decreases cfg.graphs[gi].connections.len() - k,
{
    let conns = cfg.graphs[gi].connections;
    if 0 <= k < conns.len() {
        law_resolved_lists_keep_the_prefix(cfg, gi, prefix, conns[k].ports, anc, 0);
        lemma_conns_keep_the_prefix(cfg, gi, prefix, anc, k + 1);
        if let Ok(refs) = resolve_list_spec(cfg, gi, prefix, conns[k].ports, anc, 0) {
            if let Ok(rest) = expand_conns_spec(cfg, gi, prefix, anc, k + 1) {
                let cs = seq![ConnV { cap: conns[k].cap, ports: refs }] + rest;
                assert forall|j: int, m: int| 0 <= j < cs.len() && 0 <= m < cs[j].ports.len() implies starts_with(#[trigger] cs[j].ports[m], prefix) by {
                    if j > 0 {
                        assert(cs[j] == rest[j - 1]);
                    }
                }
            }
        }
    }
}

/// Expanding graph `gi` under `prefix` names each leaf node after the node
/// of `gi` it comes from, with the whole prefix kept ([`named_from`]): a
/// leaf of `gi` is `prefix` and its name; a leaf reached through a subgraph
/// node `n` begins with `prefix`, `n` and "/", and so on at every level.
/// Every reference of the expanded connections begins with `prefix`.
pub proof fn law_expanded_names_keep_the_prefix(cfg: ConfigV, gi: int, prefix: Seq<char>, anc: Seq<Seq<char>>)
    ensures
        expand_spec(cfg, gi, prefix, anc) matches Ok((ns, cs)) ==> {
            &&& forall|i: int| 0 <= i < ns.len() ==> named_after(#[trigger] ns[i].name, prefix, cfg.graphs[gi].nodes)
            &&& conns_under(cs, prefix)
        },
    decreases names_left(cfg.graphs, anc), 0nat, 0nat,
{
    if 0 <= gi < cfg.graphs.len() {
        let g = cfg.graphs[gi];
        if !anc.contains(g.name) {
            lemma_names_left_shrinks(cfg.graphs, anc, gi);
            let anc2 = anc.push(g.name);
            lemma_nodes_keep_the_prefix(cfg, gi, prefix, anc2, 0);
            lemma_conns_keep_the_prefix(cfg, gi, prefix, anc2, 0);
            if let Ok((ns, cs)) = expand_nodes_spec(cfg, gi, prefix, anc2, 0) {
                if let Ok(cs2) = expand_conns_spec(cfg, gi, prefix, anc2, 0) {
                    let all = cs + cs2;
                    assert forall|j: int, m: int| 0 <= j < all.len() && 0 <= m < all[j].ports.len() implies starts_with(#[trigger] all[j].ports[m], prefix) by {
                        if j < cs.len() {
                            assert(all[j] == cs[j]);
                        } else {
                            assert(all[j] == cs2[j - cs.len()]);
                        }
                    }
                }
            }
        }
    }
}

/// A name that begins with the prefix of a subgraph node begins with the
/// prefix it was expanded under.
proof fn lemma_named_from_child(name: Seq<char>, prefix: Seq<char>, nd: NodeV, sub: NodeV)
    requires
        named_from(name, prefix + nd.name + seq!['/'], sub),
    ensures
        starts_with(name, prefix + nd.name + seq!['/']),
{
    let cp = prefix + nd.name + seq!['/'];
    if name == cp + sub.name {
        lemma_starts_with_append(cp, sub.name);
    } else {
        assert(cp + sub.name + seq!['/'] == cp + (sub.name + seq!['/']));
        lemma_starts_with_front(name, cp, sub.name + seq!['/']);
    }
}

/// The nodes `nodes[k..]` of graph `gi`, expanded under `prefix`: each
/// leaf is named after one of them ([`named_from`]) and every reference of
/// their connections begins with `prefix`.
proof fn lemma_nodes_keep_the_prefix(cfg: ConfigV, gi: int, prefix: Seq<char>, anc: Seq<Seq<char>>, k: int)
    ensures
        0 <= gi < cfg.graphs.len() ==> (expand_nodes_spec(cfg, gi, prefix, anc, k) matches Ok((ns, cs)) ==> {
            &&& forall|i: int| 0 <= i < ns.len() ==> named_after(#[trigger] ns[i].name, prefix, cfg.graphs[gi].nodes)
            &&& conns_under(cs, prefix)
        }),
    decreases names_left(cfg.graphs, anc), 1nat, cfg.graphs[gi].nodes.len() - k,
{
    let nodes = cfg.graphs[gi].nodes;
    if 0 <= gi < cfg.graphs.len() && 0 <= k < nodes.len() {
        let nd = nodes[k];
        lemma_nodes_keep_the_prefix(cfg, gi, prefix, anc, k + 1);
        let cp = child_prefix(prefix, nd.name);
        let first: Result<(Seq<NodeV>, Seq<ConnV>), ErrorV> = match subgraph_index(cfg, nd.ty) {
            Some(si) => expand_spec(cfg, si, cp, anc),
            None => Ok((seq![NodeV { name: prefix + nd.name, ty: nd.ty, args: nd.args }], seq![])),
        };
        if let Some(si) = subgraph_index(cfg, nd.ty) {
            law_expanded_names_keep_the_prefix(cfg, si, cp, anc);
        }
        if let Ok((pn, pc)) = first {
            if let Ok((rn, rc)) = expand_nodes_spec(cfg, gi, prefix, anc, k + 1) {
                let ns = pn + rn;
                let cs = pc + rc;
                assert(expand_nodes_spec(cfg, gi, prefix, anc, k) == Ok::<(Seq<NodeV>, Seq<ConnV>), ErrorV>((ns, cs)));
                assert(cp == prefix + nd.name + seq!['/']);
                assert forall|i: int| 0 <= i < ns.len() implies named_after(#[trigger] ns[i].name, prefix, nodes) by {
                    if i < pn.len() {
                        assert(ns[i] == pn[i]);
                        if let Some(si) = subgraph_index(cfg, nd.ty) {
                            assert(pn[i] == pn[i]);
                            assert(named_after(pn[i].name, cp, cfg.graphs[si].nodes));
                            let k3 = choose|k3: int| 0 <= k3 < cfg.graphs[si].nodes.len() && #[trigger] named_from(pn[i].name, cp, cfg.graphs[si].nodes[k3]);
                            lemma_named_from_child(pn[i].name, prefix, nd, cfg.graphs[si].nodes[k3]);
                            assert(starts_with(pn[i].name, prefix + nd.name + seq!['/']));
                        } else {
                            assert(pn[i].name == prefix + nd.name);
                        }
                        assert(named_from(ns[i].name, prefix, nodes[k]));
                    } else {
                        assert(ns[i] == rn[i - pn.len()]);
                        assert(named_after(rn[i - pn.len()].name, prefix, nodes));
                    }
                }
                assert forall|j: int, m: int| 0 <= j < cs.len() && 0 <= m < cs[j].ports.len() implies starts_with(#[trigger] cs[j].ports[m], prefix) by {
                    if j < pc.len() {
                        assert(cs[j] == pc[j]);
                        assert(prefix + nd.name + seq!['/'] == prefix + (nd.name + seq!['/']));
                        lemma_starts_with_front(pc[j].ports[m], prefix, nd.name + seq!['/']);
                    } else {
                        assert(cs[j] == rc[j - pc.len()]);
                    }
                }
            } else {
                assert(expand_nodes_spec(cfg, gi, prefix, anc, k) is Err);
            }
        } else {
            assert(expand_nodes_spec(cfg, gi, prefix, anc, k) is Err);
        }
    } else if 0 <= gi < cfg.graphs.len() {
        assert(expand_nodes_spec(cfg, gi, prefix, anc, k) == Ok::<(Seq<NodeV>, Seq<ConnV>), ErrorV>((seq![], seq![])));
    }
}

/// In a flattened configuration, every node is named after a node of the
/// entry graph: a leaf of the entry graph keeps its name, and a leaf reached
/// through subgraph node `n` is named `n`, "/", and the rest of its path.
pub proof fn law_flattened_names_follow_the_path(cfg: ConfigV)
    ensures
        flatten_spec(cfg) matches Ok(out) ==> forall|i: int|
            0 <= i < out.graphs[0].nodes.len() ==> named_after(
                #[trigger] out.graphs[0].nodes[i].name,
                seq![],
                cfg.graphs[first_graph_named(cfg.graphs, cfg.main)->0].nodes,
            ),
{
    if let Some(mi) = first_graph_named(cfg.graphs, cfg.main) {
        law_expanded_names_keep_the_prefix(cfg, mi, seq![], seq![]);
    }
}

/// The name a leaf reached through the chain of nodes `path` gets: the
/// name of each node of the chain followed by "/", then the leaf's name.
pub open spec fn chain_name(path: Seq<NodeV>) -> Seq<char>
    decreases path.len(),
{
    if path.len() == 0 {
        seq![]
    } else if path.len() == 1 {
        path[0].name
    } else {
        path[0].name + seq!['/'] + chain_name(path.drop_first())
    }
}

/// A chain of nodes from graph `gi`: the first is a node of `gi`; each
/// one but the last references a subgraph, whose graph holds the next;
/// the last is a leaf.
pub open spec fn chain_from(cfg: ConfigV, gi: int, path: Seq<NodeV>) -> bool
    decreases path.len(),
{
    if path.len() == 0 {
        false
    } else if path.len() == 1 {
        cfg.graphs[gi].nodes.contains(path[0]) && subgraph_index(cfg, path[0].ty) is None
    } else {
        &&& cfg.graphs[gi].nodes.contains(path[0])
        &&& subgraph_index(cfg, path[0].ty) matches Some(si) && chain_from(cfg, si, path.drop_first())
    }
}

/// The name is `prefix` followed by the chain name of a chain of nodes
/// from graph `gi` down to a leaf.
pub open spec fn leaf_of_chain(cfg: ConfigV, gi: int, prefix: Seq<char>, name: Seq<char>) -> bool {
    exists|path: Seq<NodeV>| #[trigger] chain_from(cfg, gi, path) && name == prefix + chain_name(path)
}

/// Expanding graph `gi` under `prefix` names every leaf after the chain of
/// nodes that leads to it: a leaf reached through subgraph nodes n1, ...,
/// nk is named `prefix` + "n1/" + ... + "nk/" + its own name, so the
/// prefixes of every level stack.
pub proof fn law_expanded_names_follow_the_chain(cfg: ConfigV, gi: int, prefix: Seq<char>, anc: Seq<Seq<char>>)
    ensures
        expand_spec(cfg, gi, prefix, anc) matches Ok((ns, cs)) ==> forall|i: int|
            0 <= i < ns.len() ==> leaf_of_chain(cfg, gi, prefix, #[trigger] ns[i].name),
    decreases names_left(cfg.graphs, anc), 0nat, 0nat,
{
    if 0 <= gi < cfg.graphs.len() {
        let g = cfg.graphs[gi];
        if !anc.contains(g.name) {
            lemma_names_left_shrinks(cfg.graphs, anc, gi);
            let anc2 = anc.push(g.name);
            lemma_nodes_follow_the_chain(cfg, gi, prefix, anc2, 0);
        }
    }
}

/// The nodes `nodes[k..]` of graph `gi`, expanded under `prefix`: each
/// leaf is named after its chain ([`leaf_of_chain`]).
proof fn lemma_nodes_follow_the_chain(cfg: ConfigV, gi: int, prefix: Seq<char>, anc: Seq<Seq<char>>, k: int)
    ensures
        0 <= gi < cfg.graphs.len() ==> (expand_nodes_spec(cfg, gi, prefix, anc, k) matches Ok((ns, cs)) ==> forall|i: int|
            0 <= i < ns.len() ==> leaf_of_chain(cfg, gi, prefix, #[trigger] ns[i].name)),
    decreases names_left(cfg.graphs, anc), 1nat, cfg.graphs[gi].nodes.len() - k,
{
    let nodes = cfg.graphs[gi].nodes;
    if 0 <= gi < cfg.graphs.len() && 0 <= k < nodes.len() {
        let nd = nodes[k];
        lemma_nodes_follow_the_chain(cfg, gi, prefix, anc, k + 1);
        let cp = child_prefix(prefix, nd.name);
        let first: Result<(Seq<NodeV>, Seq<ConnV>), ErrorV> = match subgraph_index(cfg, nd.ty) {
            Some(si) => expand_spec(cfg, si, cp, anc),
            None => Ok((seq![NodeV { name: prefix + nd.name, ty: nd.ty, args: nd.args }], seq![])),
        };
        if let Some(si) = subgraph_index(cfg, nd.ty) {
            law_expanded_names_follow_the_chain(cfg, si, cp, anc);
        }
        assert(nodes.contains(nd)) by {
            assert(nodes[k] == nd);
        }
        if let Ok((pn, pc)) = first {
            if let Ok((rn, rc)) = expand_nodes_spec(cfg, gi, prefix, anc, k + 1) {
                let ns = pn + rn;
                assert(expand_nodes_spec(cfg, gi, prefix, anc, k) == Ok::<(Seq<NodeV>, Seq<ConnV>), ErrorV>((ns, pc + rc)));
                assert forall|i: int| 0 <= i < ns.len() implies leaf_of_chain(cfg, gi, prefix, #[trigger] ns[i].name) by {
                    if i < pn.len() {
                        assert(ns[i] == pn[i]);
                        if let Some(si) = subgraph_index(cfg, nd.ty) {
                            assert(leaf_of_chain(cfg, si, cp, pn[i].name));
                            let sub_path = choose|path: Seq<NodeV>| #[trigger] chain_from(cfg, si, path) && pn[i].name == cp + chain_name(path);
                            let path = seq![nd] + sub_path;
                            assert(path.drop_first() =~= sub_path);
                            assert(path[0] == nd);
                            assert(chain_from(cfg, gi, path));
                            assert(chain_name(path) == nd.name + seq!['/'] + chain_name(sub_path));
                            assert(pn[i].name =~= prefix + chain_name(path));
                        } else {
                            let path = seq![nd];
                            assert(chain_from(cfg, gi, path));
                            assert(chain_name(path) == nd.name);
                        }
                    } else {
                        assert(ns[i] == rn[i - pn.len()]);
                    }
                }
            } else {
                assert(expand_nodes_spec(cfg, gi, prefix, anc, k) is Err);
            }
        } else {
            assert(expand_nodes_spec(cfg, gi, prefix, anc, k) is Err);
        }
    }
}

/// In a flattened configuration, a leaf reached from the entry graph
/// through subgraph nodes n1, ..., nk is named "n1/" + ... + "nk/" + its
/// own name.
pub proof fn law_flattened_names_follow_the_chain(cfg: ConfigV)
    ensures
        flatten_spec(cfg) matches Ok(out) ==> forall|i: int|
            0 <= i < out.graphs[0].nodes.len() ==> leaf_of_chain(
                cfg,
                first_graph_named(cfg.graphs, cfg.main)->0,
                seq![],
                #[trigger] out.graphs[0].nodes[i].name,
            ),
{
    if let Some(mi) = first_graph_named(cfg.graphs, cfg.main) {
        law_expanded_names_follow_the_chain(cfg, mi, seq![], seq![]);
    }
}

} // verus!
