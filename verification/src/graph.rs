//! Assembly plans for graphs.
//!
//! Assembling a graph decides, before anything runs, which channels exist,
//! which port of which node each channel end is attached to, and which
//! connections are served at run time by dynamically created subgraph
//! instances.  The plan is computed and checked here; creating the channels,
//! building the nodes and running them is left to the caller.
use crate::config::{conns_view, port_ref_spec, ConnConfig, ConnV, GraphConfig, GraphV, NodeV, PortRef, nodes_view, ports_view, resources_view, clone_args, clone_conns, clone_ports, clone_resources, Config, NodeConfig, first_graph_named, lemma_first_graph_named};
use crate::error::{Error, ErrorV};
use crate::registry::{find, find_spec, flag_of, regs_view, NodeRegistration, RegV};
use crate::search::{first_index, last_index, lemma_first_index, lemma_last_index, lemma_last_index_is};
use crate::subgraph::{graph_named, node_named};
use crate::text::{concat3, owned, str_eq, strings_view};
use vstd::prelude::*;

verus! {

broadcast use vstd::seq_lib::group_seq_properties;

/// Names the text that std's `Debug` formatting gives for a list of strings
/// with these characters (brackets, quoted and escaped items, ", " between).
pub uninterp spec fn debug_strings(v: Seq<Seq<char>>) -> Seq<char>;

/// std's `Debug` formatting of a list of strings (`format!("{:?}", v)`).
#[verifier::external_body]
pub(crate) fn debug_string_list(v: &Vec<String>) -> (r: String)
    ensures
        r@ == debug_strings(strings_view(v@)),
{
    format!("{:?}", v)
}

/// The message for a connection that names two dynamic subgraph sites.
pub open spec fn two_sites_msg(ports: Seq<Seq<char>>) -> Seq<char> {
    "dyn connection "@ + debug_strings(ports) + " references more than one dynamic subgraph site"@
}

/// The message for a connection that names two dynamic ports.
pub open spec fn two_dyn_msg(ports: Seq<Seq<char>>) -> Seq<char> {
    "dyn connection "@ + debug_strings(ports) + " has more than one dyn port"@
}

/// The message for a dynamic port not wired to a dynamic subgraph site.
pub open spec fn lone_dyn_msg(ports: Seq<Seq<char>>) -> Seq<char> {
    "dyn port in connection "@ + debug_strings(ports) + " is not wired to a dynamic subgraph site"@
}

/// The message for a dynamic subgraph site not wired to a dynamic port.
pub open spec fn lone_site_msg(ports: Seq<Seq<char>>) -> Seq<char> {
    "dynamic subgraph site in connection "@ + debug_strings(ports) + " is not wired to a dyn port"@
}

/// A connection between a dynamic port of a node and the boundary port of a
/// dynamic subgraph site: instances of the subgraph are created at run time
/// and their boundary channels handed to the node.
pub struct DynWiring {
    /// the node that holds the dynamic port
    pub node: String,
    /// the dynamic port
    pub port: String,
    /// the notification topic: the name of the site node
    pub topic: String,
    /// the boundary port of the subgraph that the port takes
    pub target: String,
    /// the capacity of the boundary channels
    pub cap: usize,
    /// the subgraph that each instance is built from
    pub graph_config: GraphConfig,
}

/// Mathematical view of a dynamic wiring.
pub struct DynWiringV {
    pub node: Seq<char>,
    pub port: Seq<char>,
    pub topic: Seq<char>,
    pub target: Seq<char>,
    pub cap: usize,
    pub graph_config: GraphV,
}

impl View for DynWiring {
    type V = DynWiringV;

    open spec fn view(&self) -> DynWiringV {
        DynWiringV {
            node: self.node@,
            port: self.port@,
            topic: self.topic@,
            target: self.target@,
            cap: self.cap,
            graph_config: self.graph_config@,
        }
    }
}

/// What the scan of a connection's references found: the dynamic port
/// (node, port, whether it is an output) and the subgraph site (site node,
/// boundary port, index of the subgraph).
pub struct DynScan {
    pub dyn_end: Option<(Seq<char>, Seq<char>, bool)>,
    pub site: Option<(Seq<char>, Seq<char>, int)>,
}

/// The subgraph that a node type names, among the dynamic subgraphs (the
/// last one of that name).
pub open spec fn site_graph(subs: Seq<GraphV>, ty: Seq<char>) -> Option<int> {
    last_index(subs, graph_named(ty))
}

/// One reference of a connection, scanned.
pub open spec fn scan_step(g: GraphV, subs: Seq<GraphV>, regs: Seq<RegV>, ports: Seq<Seq<char>>, st: DynScan, r: Seq<char>) -> Result<
    DynScan,
    ErrorV,
> {
    match port_ref_spec(r) {
        None => Err(ErrorV::BadPortRef(r)),
        Some((node, port)) => match first_index(g.nodes, node_named(node)) {
            None => Err(ErrorV::UnknownNode(node)),
            Some(ni) => {
                let ty = g.nodes[ni].ty;
                match site_graph(subs, ty) {
                    Some(si) => if st.site is Some {
                        Err(ErrorV::BadConnection(two_sites_msg(ports)))
                    } else {
                        Ok(DynScan { dyn_end: st.dyn_end, site: Some((node, port, si)) })
                    },
                    None => match find_spec(regs, ty) {
                        None => Ok(st),
                        Some(k) => {
                            let is_out = flag_of(regs[k].outputs, regs[k].output_dyn, port);
                            let is_in = flag_of(regs[k].inputs, regs[k].input_dyn, port);
                            if is_out || is_in {
                                if st.dyn_end is Some {
                                    Err(ErrorV::BadConnection(two_dyn_msg(ports)))
                                } else {
                                    Ok(DynScan { dyn_end: Some((node, port, is_out)), site: st.site })
                                }
                            } else {
                                Ok(st)
                            }
                        },
                    },
                }
            },
        },
    }
}

/// The scan of the first references of a connection, in order.
pub open spec fn scan_refs(g: GraphV, subs: Seq<GraphV>, regs: Seq<RegV>, ports: Seq<Seq<char>>, refs: Seq<Seq<char>>) -> Result<
    DynScan,
    ErrorV,
>
    decreases refs.len(),
{
    if refs.len() == 0 {
        Ok(DynScan { dyn_end: None, site: None })
    } else {
        match scan_refs(g, subs, regs, ports, refs.drop_last()) {
            Err(e) => Err(e),
            Ok(st) => scan_step(g, subs, regs, ports, st, refs.last()),
        }
    }
}

/// What a connection is: an ordinary connection (`None`), a dynamic wiring,
/// or refused.  A dynamic output port takes an instance's input boundary
/// port and a dynamic input port an output boundary port; a boundary port
/// on the wrong side is unknown.
pub open spec fn from_conn_spec(g: GraphV, subs: Seq<GraphV>, regs: Seq<RegV>, c: ConnV) -> Result<
    Option<DynWiringV>,
    ErrorV,
> {
    match scan_refs(g, subs, regs, c.ports, c.ports) {
        Err(e) => Err(e),
        Ok(st) => match (st.dyn_end, st.site) {
            (None, None) => Ok(None),
            (Some((node, port, is_out)), Some((site, boundary, si))) => {
                let sub = subs[si];
                let in_inputs = first_index(sub.inputs, crate::subgraph::port_named(boundary)) is Some;
                let in_outputs = first_index(sub.outputs, crate::subgraph::port_named(boundary)) is Some;
                if (is_out && !in_inputs) || (!is_out && !in_outputs) {
                    Err(ErrorV::UnknownPort { node: site, port: boundary })
                } else {
                    Ok(
                        Some(
                            DynWiringV {
                                node,
                                port,
                                topic: site,
                                target: boundary,
                                cap: c.cap,
                                graph_config: sub,
                            },
                        ),
                    )
                }
            },
            (Some(_), None) => Err(ErrorV::BadConnection(lone_dyn_msg(c.ports))),
            (None, Some(_)) => Err(ErrorV::BadConnection(lone_site_msg(c.ports))),
        },
    }
}

/// The views of a list of graphs.
pub open spec fn subs_view(gs: Seq<GraphConfig>) -> Seq<GraphV> {
    crate::config::graphs_view(gs)
}

/// The position of the last dynamic subgraph of a name.
fn site_position(subs: &Vec<GraphConfig>, ty: &str) -> (r: Option<usize>)
    ensures
        r matches Some(i) ==> i < subs@.len() && site_graph(subs_view(subs@), ty@) == Some(i as int),
        r is None ==> site_graph(subs_view(subs@), ty@) is None,
{
    let ghost sv = subs_view(subs@);
    let mut i = subs.len();
    while i > 0
        invariant
            sv == subs_view(subs@),
            i <= subs@.len(),
            forall|j: int| i <= j < subs@.len() ==> sv[j].name != ty@,
        decreases i,
    {
        i -= 1;
        proof {
            assert(sv[i as int] == subs@[i as int]@);
        }
        if str_eq(subs[i].name.as_str(), ty) {
            proof {
                lemma_last_index_is(sv, graph_named(ty@), i as int);
            }
            return Some(i);
        }
    }
    proof {
        lemma_last_index(sv, graph_named(ty@));
        if let Some(k) = site_graph(sv, ty@) {
            assert(sv[k].name != ty@);
        }
    }
    None
}

/// Whether a graph declares a boundary port of this name among the given ports.
fn has_port_named(ps: &Vec<crate::config::PortConfig>, name: &str) -> (r: bool)
    ensures
        r == (first_index(ports_view(ps@), crate::subgraph::port_named(name@)) is Some),
{
    let ghost pv = ports_view(ps@);
    proof {
        lemma_first_index(pv, crate::subgraph::port_named(name@));
    }
    let mut i: usize = 0;
    while i < ps.len()
        invariant
            pv == ports_view(ps@),
            i <= ps@.len(),
            forall|j: int| 0 <= j < i ==> pv[j].name != name@,
        decreases ps@.len() - i,
    {
        proof {
            assert(pv[i as int] == ps@[i as int]@);
        }
        if str_eq(ps[i].name.as_str(), name) {
            proof {
                lemma_first_index(pv, crate::subgraph::port_named(name@));
            }
            return true;
        }
        i += 1;
    }
    false
}

/// Once a prefix of the references fails, the whole scan fails the same way.
proof fn lemma_scan_err(g: GraphV, subs: Seq<GraphV>, regs: Seq<RegV>, ports: Seq<Seq<char>>, refs: Seq<Seq<char>>, i: int)
    requires
        0 <= i <= refs.len(),
        scan_refs(g, subs, regs, ports, refs.take(i)) is Err,
    ensures
        scan_refs(g, subs, regs, ports, refs) == scan_refs(g, subs, regs, ports, refs.take(i)),
    decreases refs.len(),
{
    if refs.len() == i {
        assert(refs.take(i) =~= refs);
    } else {
        assert(refs.drop_last().take(i) =~= refs.take(i));
        lemma_scan_err(g, subs, regs, ports, refs.drop_last(), i);
    }
}

impl DynWiring {
    /// Decides whether a connection of `g` is a dynamic wiring; see [`from_conn_spec`].
    /// `subs` are the dynamic subgraphs kept beside the flat graph.
    pub fn from_conn(
        g: &GraphConfig,
        subs: &Vec<GraphConfig>,
        regs: &Vec<NodeRegistration>,
        conn: &ConnConfig,
    ) -> (r: Result<Option<DynWiring>, Error>)
        ensures
            match from_conn_spec(g@, subs_view(subs@), regs_view(regs@), conn@) {
                Ok(None) => r matches Ok(None),
                Ok(Some(w)) => r matches Ok(Some(x)) && x@ == w,
                Err(e) => r matches Err(x) && x@ == e,
            },
    {
        let ghost gv = g@;
        let ghost sv = subs_view(subs@);
        let ghost rv = regs_view(regs@);
        let ghost ps = conn@.ports;
        let mut dyn_node: Option<(&str, &str, bool)> = None;
        let mut site: Option<(&str, &str, usize)> = None;
        let mut i: usize = 0;
        proof {
            assert(ps.take(0) =~= Seq::<Seq<char>>::empty());
        }
        while i < conn.ports.len()
            invariant
                gv == g@,
                sv == subs_view(subs@),
                rv == regs_view(regs@),
                ps == conn@.ports,
                ps == strings_view(conn.ports@),
                i <= conn.ports@.len(),
                scan_refs(gv, sv, rv, ps, ps.take(i as int)) == Ok::<DynScan, ErrorV>(
                    DynScan {
                        dyn_end: match dyn_node {
                            Some((n, p, o)) => Some((n@, p@, o)),
                            None => None,
                        },
                        site: match site {
                            Some((n, p, s)) => Some((n@, p@, s as int)),
                            None => None,
                        },
                    },
                ),
                site matches Some((_, _, s)) ==> s < subs@.len(),
            decreases conn.ports@.len() - i,
        {
            proof {
                assert(ps.take(i + 1).drop_last() =~= ps.take(i as int));
                assert(ps.take(i + 1).last() == conn.ports@[i as int]@);
            }
            let pref = match PortRef::parse(conn.ports[i].as_str()) {
                Ok(p) => p,
                Err(e) => {
                    proof {
                        lemma_scan_err(gv, sv, rv, ps, ps, i + 1);
                    }
                    return Err(e);
                },
            };
            let ni = match crate::subgraph::node_position(&g.nodes, pref.node) {
                Some(ni) => ni,
                None => {
                    proof {
                        lemma_scan_err(gv, sv, rv, ps, ps, i + 1);
                    }
                    return Err(Error::UnknownNode(owned(pref.node)));
                },
            };
            proof {
                assert(gv.nodes[ni as int] == g.nodes@[ni as int]@);
            }
            let ty = g.nodes[ni].ty.as_str();
            match site_position(subs, ty) {
                Some(si) => {
                    if site.is_some() {
                        proof {
                            lemma_scan_err(gv, sv, rv, ps, ps, i + 1);
                        }
                        let d = debug_string_list(&conn.ports);
                        return Err(Error::BadConnection(concat3("dyn connection ", d.as_str(), " references more than one dynamic subgraph site")));
                    }
                    site = Some((pref.node, pref.port, si));
                },
                None => match find(regs, ty) {
                    None => {},
                    Some(reg) => {
                        let is_out = reg.output_is_dyn(pref.port);
                        let is_in = reg.input_is_dyn(pref.port);
                        if is_out || is_in {
                            if dyn_node.is_some() {
                                proof {
                                    lemma_scan_err(gv, sv, rv, ps, ps, i + 1);
                                }
                                let d = debug_string_list(&conn.ports);
                                return Err(Error::BadConnection(concat3("dyn connection ", d.as_str(), " has more than one dyn port")));
                            }
                            dyn_node = Some((pref.node, pref.port, is_out));
                        }
                    },
                },
            }
            i += 1;
        }
        proof {
            assert(ps.take(i as int) =~= ps);
        }
        match (dyn_node, site) {
            (None, None) => Ok(None),
            (Some((node, port, is_out)), Some((site_node, boundary, si))) => {
                proof {
                    assert(sv[si as int] == subs@[si as int]@);
                }
                let sub = &subs[si];
                let in_inputs = has_port_named(&sub.inputs, boundary);
                let in_outputs = has_port_named(&sub.outputs, boundary);
                if (is_out && !in_inputs) || (!is_out && !in_outputs) {
                    return Err(Error::UnknownPort { node: owned(site_node), port: owned(boundary) });
                }
                Ok(
                    Some(
                        DynWiring {
                            node: owned(node),
                            port: owned(port),
                            topic: owned(site_node),
                            target: owned(boundary),
                            cap: conn.cap,
                            graph_config: sub.clone(),
                        },
                    ),
                )
            },
            (Some(_), None) => {
                let d = debug_string_list(&conn.ports);
                Err(Error::BadConnection(concat3("dyn port in connection ", d.as_str(), " is not wired to a dynamic subgraph site")))
            },
            (None, Some(_)) => {
                let d = debug_string_list(&conn.ports);
                Err(Error::BadConnection(concat3("dynamic subgraph site in connection ", d.as_str(), " is not wired to a dyn port")))
            },
        }
    }
}

/// The message for a graph that keeps dynamic subgraphs but wires none of them.
pub open spec fn no_dyn_msg() -> Seq<char> {
    "dynamic subgraph present but no dyn connection found"@
}

/// The dynamic wirings of the first connections, and the connections that
/// stay ordinary, in order; the first refused connection decides the error.
pub open spec fn dyn_scan_conns(g: GraphV, subs: Seq<GraphV>, regs: Seq<RegV>, cs: Seq<ConnV>) -> Result<
    (Seq<DynWiringV>, Seq<ConnV>),
    ErrorV,
>
    decreases cs.len(),
{
    if cs.len() == 0 {
        Ok((Seq::empty(), Seq::empty()))
    } else {
        match dyn_scan_conns(g, subs, regs, cs.drop_last()) {
            Err(e) => Err(e),
            Ok((ws, kept)) => match from_conn_spec(g, subs, regs, cs.last()) {
                Err(e) => Err(e),
                Ok(None) => Ok((ws, kept.push(cs.last()))),
                Ok(Some(w)) => Ok((ws.push(w), kept)),
            },
        }
    }
}

/// Whether a node is an ordinary node rather than a dynamic subgraph site.
pub open spec fn not_site(subs: Seq<GraphV>) -> spec_fn(NodeV) -> bool {
    |n: NodeV| site_graph(subs, n.ty) is None
}

/// The graph without its dynamic subgraph sites and its dynamic wirings.
pub open spec fn filtered_graph(g: GraphV, subs: Seq<GraphV>, kept: Seq<ConnV>) -> GraphV {
    GraphV {
        name: g.name,
        nodes: g.nodes.filter(not_site(subs)),
        inputs: g.inputs,
        outputs: g.outputs,
        connections: kept,
        resources: g.resources,
    }
}

/// The assembly of a graph with dynamic subgraph sites: the plan of the
/// graph without the sites and the dynamic connections, the dynamic
/// wirings, and for each wiring the position of its node in the plan.
pub struct DynamicPlan {
    pub filtered: GraphConfig,
    pub plan: crate::wiring::GraphPlan,
    pub wirings: Vec<DynWiring>,
    pub targets: Vec<usize>,
}

/// Once a prefix of the connections is refused, the scan is refused the same way.
proof fn lemma_dyn_scan_err(g: GraphV, subs: Seq<GraphV>, regs: Seq<RegV>, cs: Seq<ConnV>, i: int)
    requires
        0 <= i <= cs.len(),
        dyn_scan_conns(g, subs, regs, cs.take(i)) is Err,
    ensures
        dyn_scan_conns(g, subs, regs, cs) == dyn_scan_conns(g, subs, regs, cs.take(i)),
    decreases cs.len(),
{
    if cs.len() == i {
        assert(cs.take(i) =~= cs);
    } else {
        assert(cs.drop_last().take(i) =~= cs.take(i));
        lemma_dyn_scan_err(g, subs, regs, cs.drop_last(), i);
    }
}

/// What assembling graph `g` with dynamic subgraphs `subs` may give: the
/// scan's refusal; a refusal when no connection is dynamic; the refusal of
/// the filtered graph's model; or the plan of the filtered graph with the
/// wirings in order, each located at the first node of its name.
/// Every dynamic wiring names a node of the filtered graph.
pub open spec fn targets_found(fg: GraphV, ws: Seq<DynWiringV>) -> bool {
    forall|i: int| 0 <= i < ws.len() ==> #[trigger] first_index(fg.nodes, node_named(ws[i].node)) is Some
}

pub open spec fn dynamic_outcome(
    g: GraphV,
    subs: Seq<GraphV>,
    regs: Seq<RegV>,
    pairs: Map<crate::conversion::TypePair, ()>,
    r: Result<DynamicPlan, Error>,
) -> bool {
    match dyn_scan_conns(g, subs, regs, g.connections) {
        Err(e) => r matches Err(x) && x@ == e,
        Ok((ws, kept)) => if ws.len() == 0 {
            r matches Err(x) && x@ == ErrorV::Unsupported(no_dyn_msg())
        } else {
            let fg = filtered_graph(g, subs, kept);
            &&& crate::type_infer::graph_model(regs, fg) matches Err(e) ==> r matches Err(x) && x@ == e
            &&& crate::type_infer::graph_model(regs, fg) matches Ok((ks, ts, es)) ==> (r is Ok ==> crate::wiring::layout_ok(fg, regs, ks))
            &&& crate::type_infer::graph_model(regs, fg) matches Ok((ks, ts, es)) ==> (crate::wiring::layout_ok(fg, regs, ks)
                && targets_found(fg, ws) ==> (r matches Err(x) ==> x@ is ChannelTypeMismatch))
            &&& crate::type_infer::graph_model(regs, fg) matches Ok((ks, ts, es)) ==> (crate::wiring::layout_ok(fg, regs, ks)
                && targets_found(fg, ws) && crate::type_infer::no_templates(ts) && crate::type_infer::plain_inference(
                pairs, ts, es) is Ok ==> r is Ok)
            &&& crate::type_infer::graph_model(regs, fg) matches Ok((ks, ts, es)) ==> match crate::type_infer::inference(
                pairs,
                ks,
                ts,
                es,
            ) {
                Err(x) => r matches Err(y) && y@ == x,
                Ok((cs, tys)) => {
                    &&& crate::wiring::layout_ok(fg, regs, ks) && targets_found(fg, ws) ==> r is Ok
                    &&& r matches Ok(dp) ==> crate::wiring::channel_types(dp.plan) == cs
                },
            }
            &&& (r is Ok ==> targets_found(fg, ws))
            &&& r matches Ok(dp) ==> {
                &&& dp.filtered@ == fg
                &&& crate::wiring::plan_ok(fg, regs, dp.plan)
                &&& crate::wiring::plan_complete(fg, regs, dp.plan)
                &&& dp.wirings@.len() == ws.len()
                &&& forall|i: int| 0 <= i < ws.len() ==> (#[trigger] dp.wirings@[i])@ == ws[i]
                &&& dp.targets@.len() == ws.len()
                &&& forall|i: int| 0 <= i < ws.len() ==> first_index(fg.nodes, node_named(ws[i].node)) == Some(
                    #[trigger] dp.targets@[i] as int,
                )
            }
        },
    }
}

/// Assembles a graph that keeps dynamic subgraphs `subs` beside it: finds the
/// dynamic wirings ([`from_conn_spec`], in connection order), refuses a graph
/// with none, plans the rest of the graph with [`crate::wiring::assemble_graph`],
/// and locates each wiring's node in the plan (an absent node is unknown).
pub fn assemble_dynamic<F>(
    g: &GraphConfig,
    subs: &Vec<GraphConfig>,
    regs: &Vec<NodeRegistration>,
    table: &crate::conversion::ConversionTable<F>,
) -> (r: Result<DynamicPlan, Error>)
    requires
        table.well_formed(),
        crate::wiring::regs_wf(regs_view(regs@)),
    ensures
        dynamic_outcome(g@, subs_view(subs@), regs_view(regs@), crate::conversion::pairs_of(table@), r),
{
    let ghost gv = g@;
    let ghost sv = subs_view(subs@);
    let ghost rv = regs_view(regs@);
    let ghost cv = g@.connections;
    let mut wirings: Vec<DynWiring> = Vec::new();
    let mut kept: Vec<ConnConfig> = Vec::new();
    let mut j: usize = 0;
    proof {
        assert(cv.take(0) =~= Seq::<ConnV>::empty());
        assert(conns_view(kept@) =~= Seq::<ConnV>::empty());
        assert(wirings@.map_values(|w: DynWiring| w@) =~= Seq::<DynWiringV>::empty());
    }
    while j < g.connections.len()
        invariant
            gv == g@,
            sv == subs_view(subs@),
            rv == regs_view(regs@),
            cv == g@.connections,
            cv == conns_view(g.connections@),
            j <= g.connections@.len(),
            dyn_scan_conns(gv, sv, rv, cv.take(j as int)) == Ok::<(Seq<DynWiringV>, Seq<ConnV>), ErrorV>(
                (wirings@.map_values(|w: DynWiring| w@), conns_view(kept@)),
            ),
        decreases g.connections@.len() - j,
    {
        proof {
            assert(cv.take(j + 1).drop_last() =~= cv.take(j as int));
            assert(cv.take(j + 1).last() == g.connections@[j as int]@);
        }
        match DynWiring::from_conn(g, subs, regs, &g.connections[j]) {
            Err(e) => {
                proof {
                    lemma_dyn_scan_err(gv, sv, rv, cv, j + 1);
                }
                return Err(e);
            },
            Ok(None) => {
                let ghost before = kept@;
                kept.push(g.connections[j].clone());
                proof {
                    assert(conns_view(kept@) =~= conns_view(before).push(g.connections@[j as int]@));
                }
            },
            Ok(Some(w)) => {
                let ghost before = wirings@;
                wirings.push(w);
                proof {
                    assert(wirings@.map_values(|w: DynWiring| w@) =~= before.map_values(|w: DynWiring| w@).push(
                        wirings@.last()@,
                    ));
                }
            },
        }
        j += 1;
    }
    proof {
        assert(cv.take(j as int) =~= cv);
    }
    if wirings.len() == 0 {
        return Err(Error::Unsupported(owned("dynamic subgraph present but no dyn connection found")));
    }
    let ghost nv = g@.nodes;
    let mut nodes: Vec<NodeConfig> = Vec::new();
    let mut i: usize = 0;
    proof {
        reveal(Seq::filter);
        assert(nv.take(0) =~= Seq::<NodeV>::empty());
        assert(nodes_view(nodes@) =~= Seq::<NodeV>::empty());
    }
    while i < g.nodes.len()
        invariant
            sv == subs_view(subs@),
            nv == g@.nodes,
            nv == nodes_view(g.nodes@),
            i <= g.nodes@.len(),
            nodes_view(nodes@) == nv.take(i as int).filter(not_site(sv)),
        decreases g.nodes@.len() - i,
    {
        proof {
            reveal(Seq::filter);
            assert(nv.take(i + 1).drop_last() =~= nv.take(i as int));
            assert(nv.take(i + 1).last() == g.nodes@[i as int]@);
        }
        if site_position(subs, g.nodes[i].ty.as_str()).is_none() {
            let ghost before = nodes@;
            nodes.push(g.nodes[i].clone());
            proof {
                assert(nodes_view(nodes@) =~= nodes_view(before).push(g.nodes@[i as int]@));
            }
        }
        i += 1;
    }
    proof {
        assert(nv.take(i as int) =~= nv);
    }
    let filtered = GraphConfig {
        name: g.name.clone(),
        nodes,
        inputs: clone_ports(&g.inputs),
        outputs: clone_ports(&g.outputs),
        connections: kept,
        resources: clone_resources(&g.resources),
    };
    let ghost kept_v = filtered@.connections;
    let ghost ws = wirings@.map_values(|w: DynWiring| w@);
    proof {
        assert(filtered@ == filtered_graph(gv, sv, kept_v));
    }
    let plan = match crate::wiring::assemble_graph(&filtered, regs, table) {
        Ok(p) => {
            proof {
                assert(crate::type_infer::graph_model(regs_view(regs@), filtered@) is Ok);
            }
            p
        },
        Err(e) => {
            return Err(e);
        },
    };
    let mut targets: Vec<usize> = Vec::new();
    let mut k: usize = 0;
    while k < wirings.len()
        invariant
            gv == g@,
            sv == subs_view(subs@),
            rv == regs_view(regs@),
            dyn_scan_conns(gv, sv, rv, g@.connections) == Ok::<(Seq<DynWiringV>, Seq<ConnV>), ErrorV>((ws, kept_v)),
            ws == wirings@.map_values(|w: DynWiring| w@),
            ws.len() > 0,
            filtered@ == filtered_graph(gv, sv, kept_v),
            crate::type_infer::graph_model(rv, filtered@) is Ok,
            crate::wiring::plan_ok(filtered@, rv, plan),
            k <= wirings@.len(),
            targets@.len() == k,
            forall|m: int| 0 <= m < k ==> first_index(filtered@.nodes, node_named(wirings@[m]@.node)) == Some(
                #[trigger] targets@[m] as int,
            ),
            crate::type_infer::graph_model(rv, filtered@) matches Ok((ks, ts, es)) ==> crate::type_infer::inference(
                crate::conversion::pairs_of(table@),
                ks,
                ts,
                es,
            ) is Ok,
        decreases wirings@.len() - k,
    {
        match crate::subgraph::node_position(&filtered.nodes, wirings[k].node.as_str()) {
            Some(p) => {
                targets.push(p);
            },
            None => {
                proof {
                    assert(ws[k as int] == wirings@[k as int]@);
                    assert(filtered@.nodes == nodes_view(filtered.nodes@));
                    assert(first_index(filtered@.nodes, node_named(ws[k as int].node)) is None);
                    assert(!targets_found(filtered@, ws));
                }
                return Err(Error::UnknownNode(wirings[k].node.clone()));
            },
        }
        k += 1;
    }
    proof {
        assert forall|i: int| 0 <= i < ws.len() implies #[trigger] first_index(filtered@.nodes, node_named(ws[i].node)) is Some by {
            assert(ws[i] == wirings@[i]@);
            assert(first_index(filtered@.nodes, node_named(wirings@[i]@.node)) == Some(targets@[i] as int));
        }
    }
    Ok(DynamicPlan { filtered, plan, wirings, targets })
}

/// The graphs of a configuration other than the one named `name`, in order.
pub open spec fn other_graphs(gs: Seq<GraphV>, name: Seq<char>) -> Seq<GraphV> {
    gs.filter(|x: GraphV| x.name != name)
}

/// How a configuration is assembled: its entry graph alone, or its entry
/// graph with the other graphs kept as dynamic subgraphs.
pub enum Assembly {
    Plain(crate::wiring::GraphPlan),
    Dynamic(DynamicPlan),
}

/// Assembles a configuration: its entry graph (`main`; absent: refused), with
/// the other graphs as dynamic subgraphs when there are any.
pub fn assemble<F>(config: &Config, regs: &Vec<NodeRegistration>, table: &crate::conversion::ConversionTable<F>) -> (r:
    Result<Assembly, Error>)
    requires
        table.well_formed(),
        crate::wiring::regs_wf(regs_view(regs@)),
    ensures
        match first_graph_named(config@.graphs, config@.main) {
            None => r matches Err(x) && x@ == ErrorV::MainGraphNotFound(config@.main),
            Some(mi) => {
                let g = config@.graphs[mi];
                let subs = other_graphs(config@.graphs, g.name);
                if subs.len() == 0 {
                    &&& crate::type_infer::graph_model(regs_view(regs@), g) matches Err(e) ==> r matches Err(x) && x@ == e
                    &&& crate::type_infer::graph_model(regs_view(regs@), g) matches Ok((ks, ts, es)) ==> (r is Ok
                        ==> crate::wiring::layout_ok(g, regs_view(regs@), ks))
                    &&& crate::type_infer::graph_model(regs_view(regs@), g) matches Ok((ks, ts, es)) ==> (
                    crate::wiring::layout_ok(g, regs_view(regs@), ks) ==> (r matches Err(x) ==> x@ is ChannelTypeMismatch))
                    &&& crate::type_infer::graph_model(regs_view(regs@), g) matches Ok((ks, ts, es)) ==> (
                    crate::wiring::layout_ok(g, regs_view(regs@), ks) && crate::type_infer::no_templates(ts)
                        && crate::type_infer::plain_inference(crate::conversion::pairs_of(table@), ts, es) is Ok ==> r is Ok)
                    &&& crate::type_infer::graph_model(regs_view(regs@), g) matches Ok((ks, ts, es)) ==> match crate::type_infer::inference(
                        crate::conversion::pairs_of(table@),
                        ks,
                        ts,
                        es,
                    ) {
                        Err(x) => r matches Err(y) && y@ == x,
                        Ok((cs, tys)) => {
                            &&& crate::wiring::layout_ok(g, regs_view(regs@), ks) ==> r is Ok
                            &&& r matches Ok(a) ==> (a matches Assembly::Plain(p) && crate::wiring::channel_types(p) == cs)
                        },
                    }
                    &&& r matches Ok(a) ==> (a matches Assembly::Plain(p) && crate::wiring::plan_ok(g, regs_view(regs@), p)
                        && crate::wiring::plan_complete(g, regs_view(regs@), p))
                } else {
                    match r {
                        Ok(Assembly::Dynamic(dp)) => dynamic_outcome(g, subs, regs_view(regs@), crate::conversion::pairs_of(table@), Ok(dp)),
                        Ok(Assembly::Plain(_)) => false,
                        Err(x) => dynamic_outcome(g, subs, regs_view(regs@), crate::conversion::pairs_of(table@), Err(x)),
                    }
                }
            },
        },
{
    proof {
        lemma_first_graph_named(config@.graphs, config@.main);
    }
    let g = match config.main_graph() {
        Some(g) => g,
        None => {
            return Err(Error::MainGraphNotFound(config.main.clone()));
        },
    };
    let ghost gv = crate::config::graphs_view(config.graphs@);
    let mut subs: Vec<GraphConfig> = Vec::new();
    let mut i: usize = 0;
    proof {
        reveal(Seq::filter);
        assert(gv.take(0) =~= Seq::<GraphV>::empty());
        assert(subs_view(subs@) =~= Seq::<GraphV>::empty());
    }
    while i < config.graphs.len()
        invariant
            gv == crate::config::graphs_view(config.graphs@),
            i <= config.graphs@.len(),
            subs_view(subs@) == gv.take(i as int).filter(|x: GraphV| x.name != g@.name),
        decreases config.graphs@.len() - i,
    {
        proof {
            reveal(Seq::filter);
            assert(gv.take(i + 1).drop_last() =~= gv.take(i as int));
            assert(gv.take(i + 1).last() == config.graphs@[i as int]@);
        }
        if !str_eq(config.graphs[i].name.as_str(), g.name.as_str()) {
            let ghost before = subs@;
            subs.push(config.graphs[i].clone());
            proof {
                assert(subs_view(subs@) =~= subs_view(before).push(config.graphs@[i as int]@));
            }
        }
        i += 1;
    }
    proof {
        assert(gv.take(i as int) =~= gv);
    }
    if subs.len() == 0 {
        match crate::wiring::assemble_graph(g, regs, table) {
            Ok(p) => Ok(Assembly::Plain(p)),
            Err(e) => Err(e),
        }
    } else {
        match assemble_dynamic(g, &subs, regs, table) {
            Ok(d) => Ok(Assembly::Dynamic(d)),
            Err(e) => Err(e),
        }
    }
}

/// For each resource of a graph, the position of its type among the resource
/// registrations; an unregistered type is refused.
pub fn resource_plan(g: &GraphConfig, rregs: &Vec<crate::resource::ResourceRegistration>) -> (r: Result<Vec<usize>, Error>)
    ensures
        match r {
            Ok(ix) => ix@.len() == g@.resources.len() && forall|k: int|
                0 <= k < ix@.len() ==> crate::resource::find_resource_spec(rregs@, g@.resources[k].ty) == Some(
                    #[trigger] ix@[k] as int,
                ),
            Err(x) => exists|k: int|
                0 <= k < g@.resources.len() && crate::resource::find_resource_spec(rregs@, #[trigger] g@.resources[k].ty)
                    is None && x@ == ErrorV::UnknownResourceType(g@.resources[k].ty) && forall|j: int|
                    0 <= j < k ==> crate::resource::find_resource_spec(rregs@, g@.resources[j].ty) is Some,
        },
{
    let mut ix: Vec<usize> = Vec::new();
    let mut k: usize = 0;
    while k < g.resources.len()
        invariant
            k <= g.resources@.len(),
            ix@.len() == k,
            forall|m: int| 0 <= m < k ==> crate::resource::find_resource_spec(rregs@, g@.resources[m].ty) == Some(
                #[trigger] ix@[m] as int,
            ),
        decreases g.resources@.len() - k,
    {
        proof {
            assert(g@.resources[k as int] == g.resources@[k as int]@);
        }
        match crate::resource::find_resource_index(rregs, g.resources[k].ty.as_str()) {
            Some(f) => {
                ix.push(f);
            },
            None => {
                proof {
                    assert(crate::resource::find_resource_spec(rregs@, g@.resources[k as int].ty) is None);
                    assert forall|j: int| 0 <= j < k implies crate::resource::find_resource_spec(
                        rregs@,
                        g@.resources[j].ty,
                    ) is Some by {
                        assert(crate::resource::find_resource_spec(rregs@, g@.resources[j].ty) == Some(ix@[j] as int));
                    }
                }
                return Err(Error::UnknownResourceType(g.resources[k].ty.clone()));
            },
        }
        k += 1;
    }
    Ok(ix)
}

/// Collects what a graph is built from: the topology text.
#[derive(Default)]
pub struct Builder {
    pub template: Option<String>,
}

impl Builder {
    /// Provides the graph-topology text.
    pub fn template(self, toml: String) -> (r: Self)
        ensures
            r.template == Some(toml),
    {
        Builder { template: Some(toml) }
    }
}

/// A dynamic port takes a boundary port of the other direction: when a
/// connection holds a dynamic port (`is_out`: an output port) and a
/// subgraph site naming boundary port `b`, the connection is a wiring of
/// that port to `b` exactly when the site's subgraph has `b` among its
/// inputs (for a dynamic output port) or among its outputs (for a dynamic
/// input port); otherwise it is refused with `b` unknown on the site.
pub proof fn law_dyn_port_takes_the_opposite_boundary(g: GraphV, subs: Seq<GraphV>, regs: Seq<RegV>, c: ConnV)
    requires
        scan_refs(g, subs, regs, c.ports, c.ports) matches Ok(st) && st.dyn_end is Some && st.site is Some,
    ensures
        ({
            let st = scan_refs(g, subs, regs, c.ports, c.ports)->Ok_0;
            let (node, port, is_out) = st.dyn_end->0;
            let (site, b, si) = st.site->0;
            let wired = Ok::<Option<DynWiringV>, ErrorV>(
                Some(DynWiringV { node, port, topic: site, target: b, cap: c.cap, graph_config: subs[si] }),
            );
            let unknown = Err::<Option<DynWiringV>, ErrorV>(ErrorV::UnknownPort { node: site, port: b });
            let in_inputs = exists|k: int| 0 <= k < subs[si].inputs.len() && (#[trigger] subs[si].inputs[k]).name == b;
            let in_outputs = exists|k: int| 0 <= k < subs[si].outputs.len() && (#[trigger] subs[si].outputs[k]).name == b;
            &&& is_out && in_inputs ==> from_conn_spec(g, subs, regs, c) == wired
            &&& is_out && !in_inputs ==> from_conn_spec(g, subs, regs, c) == unknown
            &&& !is_out && in_outputs ==> from_conn_spec(g, subs, regs, c) == wired
            &&& !is_out && !in_outputs ==> from_conn_spec(g, subs, regs, c) == unknown
        }),
{
    let st = scan_refs(g, subs, regs, c.ports, c.ports)->Ok_0;
    let (node, port, is_out) = st.dyn_end->0;
    let (site, b, si) = st.site->0;
    lemma_first_index(subs[si].inputs, crate::subgraph::port_named(b));
    lemma_first_index(subs[si].outputs, crate::subgraph::port_named(b));
    if let Some(i) = first_index(subs[si].inputs, crate::subgraph::port_named(b)) {
        assert(subs[si].inputs[i].name == b);
    }
    if let Some(i) = first_index(subs[si].outputs, crate::subgraph::port_named(b)) {
        assert(subs[si].outputs[i].name == b);
    }
    if exists|k: int| 0 <= k < subs[si].inputs.len() && (#[trigger] subs[si].inputs[k]).name == b {
        let k = choose|k: int| 0 <= k < subs[si].inputs.len() && (#[trigger] subs[si].inputs[k]).name == b;
        assert(crate::subgraph::port_named(b)(subs[si].inputs[k]));
    }
    if exists|k: int| 0 <= k < subs[si].outputs.len() && (#[trigger] subs[si].outputs[k]).name == b {
        let k = choose|k: int| 0 <= k < subs[si].outputs.len() && (#[trigger] subs[si].outputs[k]).name == b;
        assert(crate::subgraph::port_named(b)(subs[si].outputs[k]));
    }
}

} // verus!
