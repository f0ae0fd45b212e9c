//! Message-type inference for one flat graph.
//!
//! Every port of every node gets the message type its node type declares;
//! every graph input, graph output and internal connection becomes an edge
//! between the ports it names.  Each edge then gets the type that fits all
//! its ends ([`crate::conversion::guess_channel_type`]).  A port declared
//! with a template parameter takes the type of the first edge through it that
//! settles, and so does every port of the same node declared with the same
//! parameter; settling an edge first tries, depth first, the other edges
//! through such related ports.
use crate::config::{port_ref_spec, GraphConfig, GraphV, NodeV, PortRef, PortV, ConnV, nodes_view};
use crate::conversion::{guess_channel_type, guess_spec, pairs_of, ConversionTable, fits_all, fits_all_native, is_abstract_type};
use crate::error::{Error, ErrorV};
use crate::interlayer::MsgTypeId;
use crate::registry::{find, find_spec, regs_view, NodeRegistration, RegV};
use crate::search::{first_index, last_index, lemma_first_index, lemma_last_index, lemma_last_index_is};
use crate::text::{owned, str_eq};
use vstd::prelude::*;

verus! {

broadcast use vstd::seq_lib::group_seq_properties;

/// The message of the error for a node type whose port names and port types differ in number.
pub open spec fn metadata_msg() -> Seq<char> {
    "port type metadata length does not match names"@
}

/// The message of the error for a graph input wired to nothing.
pub open spec fn input_msg() -> Seq<char> {
    "graph input has no target"@
}

/// The message of the error for a graph output wired to nothing.
pub open spec fn output_msg() -> Seq<char> {
    "graph output has no source"@
}

/// The message of the error for a connection without a sender or a receiver.
pub open spec fn conn_msg() -> Seq<char> {
    "connection needs sender and receiver"@
}

/// A port of a node instance: node name, port name, direction.
pub struct PortKey {
    pub node: String,
    pub name: String,
    pub input: bool,
}

/// Mathematical view of a port key.
pub struct PortKeyV {
    pub node: Seq<char>,
    pub name: Seq<char>,
    pub input: bool,
}

impl View for PortKey {
    type V = PortKeyV;

    open spec fn view(&self) -> PortKeyV {
        PortKeyV { node: self.node@, name: self.name@, input: self.input }
    }
}

/// The views of a list of port keys.
pub open spec fn keys_view(ks: Seq<PortKey>) -> Seq<PortKeyV> {
    ks.map_values(|k: PortKey| k@)
}

/// An edge: the ports that send on it and the ports that receive from it.
pub struct Edge {
    pub tx: Vec<usize>,
    pub rx: Vec<usize>,
}

/// Mathematical view of an edge.
pub struct EdgeV {
    pub tx: Seq<usize>,
    pub rx: Seq<usize>,
}

impl View for Edge {
    type V = EdgeV;

    open spec fn view(&self) -> EdgeV {
        EdgeV { tx: self.tx@, rx: self.rx@ }
    }
}

/// The views of a list of edges.
pub open spec fn edges_view(es: Seq<Edge>) -> Seq<EdgeV> {
    es.map_values(|e: Edge| e@)
}

/// Where the inference of an edge stands.
#[derive(Clone, Copy)]
pub enum EdgeState {
    Pending,
    Visiting,
    Done(MsgTypeId),
}

// ---------------------------------------------------------------------------
// The ports and edges of a graph.

/// The ports that one side of a node contributes.
pub open spec fn side_ports(node: Seq<char>, names: Seq<Seq<char>>, input: bool) -> Seq<PortKeyV> {
    Seq::new(names.len(), |i: int| PortKeyV { node, name: names[i], input })
}

/// The ports and declared types of one node, or why the node is refused:
/// its type is not registered, or a side of it has as many names as types.
pub open spec fn node_ports(regs: Seq<RegV>, n: NodeV) -> Result<(Seq<PortKeyV>, Seq<MsgTypeId>), ErrorV> {
    match find_spec(regs, n.ty) {
        None => Err(ErrorV::UnknownNodeType(n.ty)),
        Some(k) => {
            let r = regs[k];
            if r.inputs.len() != r.input_types.len() {
                Err(ErrorV::BadConnection(metadata_msg()))
            } else if r.outputs.len() != r.output_types.len() {
                Err(ErrorV::BadConnection(metadata_msg()))
            } else {
                Ok(
                    (
                        side_ports(n.name, r.inputs, true) + side_ports(n.name, r.outputs, false),
                        r.input_types + r.output_types,
                    ),
                )
            }
        },
    }
}

/// The ports and declared types of all nodes, in node order; the first refused node decides the error.
pub open spec fn graph_ports(regs: Seq<RegV>, nodes: Seq<NodeV>) -> Result<(Seq<PortKeyV>, Seq<MsgTypeId>), ErrorV>
    decreases nodes.len(),
{
    if nodes.len() == 0 {
        Ok((Seq::empty(), Seq::empty()))
    } else {
        match graph_ports(regs, nodes.drop_last()) {
            Err(e) => Err(e),
            Ok((ks, ts)) => match node_ports(regs, nodes.last()) {
                Err(e) => Err(e),
                Ok((ks2, ts2)) => Ok((ks + ks2, ts + ts2)),
            },
        }
    }
}

/// A predicate for a port key.
pub open spec fn key_is(node: Seq<char>, name: Seq<char>, input: bool) -> spec_fn(PortKeyV) -> bool {
    |k: PortKeyV| k.node == node && k.name == name && k.input == input
}

/// The port a "node:port" reference stands for: the last port of that key
/// (later ports of a key hide earlier ones).  Without a direction an output
/// port is preferred to an input port.
pub open spec fn resolve_spec(g: GraphV, ks: Seq<PortKeyV>, r: Seq<char>, dir: Option<bool>) -> Result<usize, ErrorV> {
    match port_ref_spec(r) {
        None => Err(ErrorV::BadPortRef(r)),
        Some((node, port)) => if first_index(g.nodes, crate::subgraph::node_named(node)) is None {
            Err(ErrorV::UnknownNode(node))
        } else {
            let found = match dir {
                Some(input) => last_index(ks, key_is(node, port, input)),
                None => match last_index(ks, key_is(node, port, false)) {
                    Some(i) => Some(i),
                    None => last_index(ks, key_is(node, port, true)),
                },
            };
            match found {
                Some(i) => Ok(i as usize),
                None => Err(ErrorV::UnknownPort { node, port }),
            }
        },
    }
}

/// The ports of a list of references, in order; the first failing reference decides the error.
pub open spec fn resolve_all_spec(g: GraphV, ks: Seq<PortKeyV>, refs: Seq<Seq<char>>, dir: Option<bool>) -> Result<
    Seq<usize>,
    ErrorV,
>
    decreases refs.len(),
{
    if refs.len() == 0 {
        Ok(Seq::empty())
    } else {
        match resolve_all_spec(g, ks, refs.drop_last(), dir) {
            Err(e) => Err(e),
            Ok(ix) => match resolve_spec(g, ks, refs.last(), dir) {
                Err(e) => Err(e),
                Ok(i) => Ok(ix.push(i)),
            },
        }
    }
}

/// The edges of the graph's inputs (`input`) or outputs (not `input`), in order.
pub open spec fn boundary_edges(g: GraphV, ks: Seq<PortKeyV>, bs: Seq<PortV>, input: bool) -> Result<
    Seq<EdgeV>,
    ErrorV,
>
    decreases bs.len(),
{
    if bs.len() == 0 {
        Ok(Seq::empty())
    } else {
        match boundary_edges(g, ks, bs.drop_last(), input) {
            Err(e) => Err(e),
            Ok(es) => {
                let b = bs.last();
                if b.ports.len() == 0 {
                    Err(ErrorV::BadConnection(if input { input_msg() } else { output_msg() }))
                } else {
                    match resolve_all_spec(g, ks, b.ports, Some(input)) {
                        Err(e) => Err(e),
                        Ok(ix) => Ok(
                            es.push(
                                if input {
                                    EdgeV { tx: Seq::empty(), rx: ix }
                                } else {
                                    EdgeV { tx: ix, rx: Seq::empty() }
                                },
                            ),
                        ),
                    }
                }
            },
        }
    }
}

/// Predicates for the direction of a port given by position.
pub open spec fn is_output_at(ks: Seq<PortKeyV>) -> spec_fn(usize) -> bool {
    |i: usize| !ks[i as int].input
}

pub open spec fn is_input_at(ks: Seq<PortKeyV>) -> spec_fn(usize) -> bool {
    |i: usize| ks[i as int].input
}

/// The edges of the graph's internal connections, in order: senders are
/// the output ports named, receivers the input ports; each needs both.
pub open spec fn connection_edges(g: GraphV, ks: Seq<PortKeyV>, cs: Seq<ConnV>) -> Result<Seq<EdgeV>, ErrorV>
    decreases cs.len(),
{
    if cs.len() == 0 {
        Ok(Seq::empty())
    } else {
        match connection_edges(g, ks, cs.drop_last()) {
            Err(e) => Err(e),
            Ok(es) => match resolve_all_spec(g, ks, cs.last().ports, None) {
                Err(e) => Err(e),
                Ok(ix) => {
                    let tx = ix.filter(is_output_at(ks));
                    let rx = ix.filter(is_input_at(ks));
                    if tx.len() == 0 || rx.len() == 0 {
                        Err(ErrorV::BadConnection(conn_msg()))
                    } else {
                        Ok(es.push(EdgeV { tx, rx }))
                    }
                },
            },
        }
    }
}

/// All edges: graph inputs, then graph outputs, then internal connections.
pub open spec fn graph_edges(g: GraphV, ks: Seq<PortKeyV>) -> Result<Seq<EdgeV>, ErrorV> {
    match boundary_edges(g, ks, g.inputs, true) {
        Err(e) => Err(e),
        Ok(a) => match boundary_edges(g, ks, g.outputs, false) {
            Err(e) => Err(e),
            Ok(b) => match connection_edges(g, ks, g.connections) {
                Err(e) => Err(e),
                Ok(c) => Ok(a + b + c),
            },
        },
    }
}

/// The ports, declared types and edges of a graph, or why it is refused.
pub open spec fn graph_model(regs: Seq<RegV>, g: GraphV) -> Result<(Seq<PortKeyV>, Seq<MsgTypeId>, Seq<EdgeV>), ErrorV> {
    match graph_ports(regs, g.nodes) {
        Err(e) => Err(e),
        Ok((ks, ts)) => match graph_edges(g, ks) {
            Err(e) => Err(e),
            Ok(es) => Ok((ks, ts, es)),
        },
    }
}

// ---------------------------------------------------------------------------
// Inference.

/// The types at the given port positions.
pub open spec fn types_at(ts: Seq<MsgTypeId>, ix: Seq<usize>) -> Seq<MsgTypeId> {
    ix.map_values(|i: usize| ts[i as int])
}

/// The type chosen for an edge from the current port types.
pub open spec fn edge_guess(conv: Map<(MsgTypeId, MsgTypeId), ()>, ts: Seq<MsgTypeId>, e: EdgeV) -> Result<
    MsgTypeId,
    ErrorV,
> {
    guess_spec(conv, types_at(ts, e.tx), types_at(ts, e.rx))
}

/// Whether no port is declared with a template parameter.
pub open spec fn no_templates(ts: Seq<MsgTypeId>) -> bool {
    forall|i: int| 0 <= i < ts.len() ==> !(#[trigger] ts[i] is Template)
}

/// Whether no end of an edge is declared with a template parameter.
pub open spec fn edge_plain(ts: Seq<MsgTypeId>, e: EdgeV) -> bool {
    &&& forall|k: int| 0 <= k < e.tx.len() ==> !(#[trigger] ts[e.tx[k] as int] is Template)
    &&& forall|k: int| 0 <= k < e.rx.len() ==> !(#[trigger] ts[e.rx[k] as int] is Template)
}

/// An edge's own choice from the types `ts`, with a failed template
/// inference taken as any payload.
pub open spec fn edge_choice(conv: Map<(MsgTypeId, MsgTypeId), ()>, ts: Seq<MsgTypeId>, e: EdgeV) -> Result<
    MsgTypeId,
    ErrorV,
> {
    match edge_guess(conv, ts, e) {
        Err(ErrorV::TemplateInferFault) => Ok(MsgTypeId::Any),
        other => other,
    }
}

/// Some end of the edge has a type that is not a template parameter.
pub open spec fn has_concrete_end(ts: Seq<MsgTypeId>, e: EdgeV) -> bool {
    ||| exists|k: int| 0 <= k < e.tx.len() && !(#[trigger] ts[e.tx[k] as int] is Template)
    ||| exists|k: int| 0 <= k < e.rx.len() && !(#[trigger] ts[e.rx[k] as int] is Template)
}

/// Every settled edge is typed `Any`, or has an end of a type that is not a
/// template parameter.
pub open spec fn done_typed(ts: Seq<MsgTypeId>, st: Seq<EdgeState>, es: Seq<EdgeV>) -> bool {
    forall|d: int|
        0 <= d < st.len() && d < es.len() && (#[trigger] st[d]) is Done ==> st[d]->Done_0 == MsgTypeId::Any || has_concrete_end(
            ts,
            es[d],
        )
}

/// Every end of every edge is declared with a template parameter.
pub open spec fn all_template_edges(ds: Seq<MsgTypeId>, es: Seq<EdgeV>) -> bool {
    &&& forall|d: int, k: int| 0 <= d < es.len() && 0 <= k < es[d].tx.len() ==> (#[trigger] ds[es[d].tx[k] as int]) is Template
    &&& forall|d: int, k: int| 0 <= d < es.len() && 0 <= k < es[d].rx.len() ==> (#[trigger] ds[es[d].rx[k] as int]) is Template
}

/// An edge all of whose ends are template parameters cannot be typed.
proof fn lemma_all_template_guess(conv: Map<(MsgTypeId, MsgTypeId), ()>, ts: Seq<MsgTypeId>, e: EdgeV)
    requires
        forall|k: int| 0 <= k < e.tx.len() ==> (#[trigger] ts[e.tx[k] as int]) is Template,
        forall|k: int| 0 <= k < e.rx.len() ==> (#[trigger] ts[e.rx[k] as int]) is Template,
    ensures
        guess_spec(conv, types_at(ts, e.tx), types_at(ts, e.rx)) == Err::<MsgTypeId, ErrorV>(ErrorV::TemplateInferFault),
{
    let tx = types_at(ts, e.tx);
    let rx = types_at(ts, e.rx);
    crate::conversion::law_guess_fits(conv, tx, rx);
    assert forall|i: int| 0 <= i < (tx + rx).len() implies (#[trigger] (tx + rx)[i]) is Template by {
        if i < tx.len() {
            assert((tx + rx)[i] == ts[e.tx[i] as int]);
        } else {
            assert((tx + rx)[i] == ts[e.rx[i - tx.len()] as int]);
        }
    }
}

/// An edge that can be typed has an end that is not a template parameter.
proof fn lemma_guess_concrete(conv: Map<(MsgTypeId, MsgTypeId), ()>, ts: Seq<MsgTypeId>, e: EdgeV)
    requires
        guess_spec(conv, types_at(ts, e.tx), types_at(ts, e.rx)) is Ok,
    ensures
        has_concrete_end(ts, e),
{
    let tx = types_at(ts, e.tx);
    let rx = types_at(ts, e.rx);
    crate::conversion::law_guess_fits(conv, tx, rx);
    let i = choose|i: int| 0 <= i < (tx + rx).len() && !((tx + rx)[i] is Template);
    if i < tx.len() {
        assert((tx + rx)[i] == ts[e.tx[i] as int]);
    } else {
        assert((tx + rx)[i] == ts[e.rx[i - tx.len()] as int]);
    }
}

/// Types that only settle keep every edge that has a concrete end.
proof fn lemma_done_typed_mono(t1: Seq<MsgTypeId>, t2: Seq<MsgTypeId>, st: Seq<EdgeState>, es: Seq<EdgeV>)
    requires
        t1.len() == t2.len(),
        forall|p: int| 0 <= p < t1.len() && !(t1[p] is Template) ==> #[trigger] t2[p] == t1[p],
        forall|d: int, k: int| 0 <= d < es.len() && 0 <= k < es[d].tx.len() ==> #[trigger] es[d].tx[k] < t1.len(),
        forall|d: int, k: int| 0 <= d < es.len() && 0 <= k < es[d].rx.len() ==> #[trigger] es[d].rx[k] < t1.len(),
        done_typed(t1, st, es),
    ensures
        done_typed(t2, st, es),
{
    assert forall|d: int| 0 <= d < st.len() && d < es.len() && (#[trigger] st[d]) is Done implies st[d]->Done_0 == MsgTypeId::Any
        || has_concrete_end(t2, es[d]) by {
        if st[d]->Done_0 != MsgTypeId::Any {
            let e = es[d];
            if exists|k: int| 0 <= k < e.tx.len() && !(#[trigger] t1[e.tx[k] as int] is Template) {
                let k = choose|k: int| 0 <= k < e.tx.len() && !(#[trigger] t1[e.tx[k] as int] is Template);
                assert(es[d].tx[k] < t1.len());
                assert(t2[e.tx[k] as int] == t1[e.tx[k] as int]);
            } else {
                let k = choose|k: int| 0 <= k < e.rx.len() && !(#[trigger] t1[e.rx[k] as int] is Template);
                assert(es[d].rx[k] < t1.len());
                assert(t2[e.rx[k] as int] == t1[e.rx[k] as int]);
            }
        }
    }
}

/// Edge `e` has an end among the ports of `q`'s node declared (in `ds`)
/// with `q`'s type.
pub open spec fn touches(ks: Seq<PortKeyV>, ds: Seq<MsgTypeId>, e: EdgeV, q: int) -> bool {
    exists|p: usize| #[trigger] (e.tx + e.rx).contains(p) && ds[p as int] == ds[q] && ks[p as int].node == ks[q].node
}

/// Every port whose settling edge changed since (`old_by`, `old_st`) was
/// settled by an edge that was pending then.
pub open spec fn settled_since(old_by: Seq<Option<int>>, old_st: Seq<EdgeState>, by: Seq<Option<int>>) -> bool {
    &&& by.len() == old_by.len()
    &&& forall|q: int|
        0 <= q < old_by.len() ==> #[trigger] by[q] == old_by[q] || (by[q] matches Some(d) && 0 <= d < old_st.len()
            && old_st[d] is Pending)
}

/// How a visit that settled `edge` to `t` left its end `p`: either the
/// edge settled it, and then every port of `p`'s node declared with `p`'s
/// type has `t`; or another edge had settled it, one that was settled already
/// for `p` before the visit (`old_by`) or that was pending then (`old_st`).
pub open spec fn end_settled(
    ks: Seq<PortKeyV>,
    ds: Seq<MsgTypeId>,
    old_by: Seq<Option<int>>,
    old_st: Seq<EdgeState>,
    ts: Seq<MsgTypeId>,
    by: Seq<Option<int>>,
    edge: int,
    t: MsgTypeId,
    p: int,
) -> bool {
    ||| by[p] == Some(edge) && forall|q: int|
        0 <= q < ts.len() && q < ds.len() && q < ks.len() && ds[q] == ds[p] && ks[q].node == ks[p].node ==> #[trigger] ts[q] == t
    ||| by[p] matches Some(d) && d != edge && (old_by[p] == Some(d) || (0 <= d < old_st.len() && old_st[d] is Pending))
}

/// Where each port's type comes from: a port declared with a template
/// parameter (in `ds`) keeps it until an edge settles it, and then has the
/// type that edge was settled to, an edge (of `es`) with an end among the
/// ports of that node declared with that parameter; the ports of one node
/// declared with one parameter are settled by one edge.
pub open spec fn provenance(
    ks: Seq<PortKeyV>,
    ds: Seq<MsgTypeId>,
    ts: Seq<MsgTypeId>,
    by: Seq<Option<int>>,
    st: Seq<EdgeState>,
    es: Seq<EdgeV>,
) -> bool {
    &&& by.len() == ts.len()
    &&& forall|q: int| 0 <= q < ts.len() && q < ds.len() && ds[q] is Template ==> ((#[trigger] by[q]) is None <==> ts[q] is Template)
    &&& forall|q: int| 0 <= q < ts.len() && q < ds.len() && !(ds[q] is Template) ==> (#[trigger] by[q]) is None
    &&& forall|q: int| 0 <= q < ts.len() && (#[trigger] by[q]) is Some ==> 0 <= by[q]->0 < st.len() && st[by[q]->0] == EdgeState::Done(ts[q])
        && by[q]->0 < es.len() && touches(ks, ds, es[by[q]->0], q)
    &&& forall|p: int, q: int|
        #![trigger by[p], by[q]]
        0 <= p < ds.len() && 0 <= q < ds.len() && p < ks.len() && q < ks.len() && p < by.len() && q < by.len() && ds[p] is Template && ds[q] == ds[p]
            && ks[p].node == ks[q].node ==> by[p] == by[q]
}

/// Settling edges that changed twice over changed from edges pending at
/// the start.
proof fn lemma_settled_since_trans(
    b0: Seq<Option<int>>,
    s0: Seq<EdgeState>,
    b1: Seq<Option<int>>,
    s1: Seq<EdgeState>,
    b2: Seq<Option<int>>,
)
    requires
        settled_since(b0, s0, b1),
        settled_since(b1, s1, b2),
        s1.len() == s0.len(),
        forall|e: int| 0 <= e < s0.len() && (#[trigger] s1[e]) is Pending ==> s0[e] is Pending,
    ensures
        settled_since(b0, s0, b2),
{
    assert forall|q: int| 0 <= q < b0.len() implies #[trigger] b2[q] == b0[q] || (b2[q] matches Some(d) && 0 <= d < s0.len()
        && s0[d] is Pending) by {
        if b2[q] != b1[q] {
            let d = b2[q]->0;
            assert(s1[d] is Pending);
        }
    }
}

/// An end of a settled edge that has a settling edge was settled as
/// [`end_settled`] says.
proof fn lemma_end_settled(
    ks: Seq<PortKeyV>,
    ds: Seq<MsgTypeId>,
    old_by: Seq<Option<int>>,
    old_st: Seq<EdgeState>,
    ts: Seq<MsgTypeId>,
    by: Seq<Option<int>>,
    st: Seq<EdgeState>,
    es: Seq<EdgeV>,
    edge: int,
    t: MsgTypeId,
    p: int,
)
    requires
        provenance(ks, ds, ts, by, st, es),
        settled_since(old_by, old_st, by),
        0 <= edge < st.len(),
        st[edge] == EdgeState::Done(t),
        0 <= p < ts.len(),
        p < ds.len(),
        p < ks.len(),
        ds[p] is Template,
        by[p] is Some,
    ensures
        end_settled(ks, ds, old_by, old_st, ts, by, edge, t, p),
{
    if by[p] == Some(edge) {
        assert forall|q: int| 0 <= q < ts.len() && q < ds.len() && q < ks.len() && ds[q] == ds[p] && ks[q].node == ks[p].node implies #[trigger] ts[q] == t by {
            assert(by[q] == by[p]);
            assert(st[by[q]->0] == EdgeState::Done(ts[q]));
        }
    }
}

/// Ports of one node declared with one template parameter (in `ds`) have
/// one type now.
pub open spec fn tied(ks: Seq<PortKeyV>, ds: Seq<MsgTypeId>, ts: Seq<MsgTypeId>) -> bool {
    forall|p: int, q: int|
        #![trigger ts[p], ts[q]]
        0 <= p < ds.len() && 0 <= q < ds.len() && p < ks.len() && q < ks.len() && ds[p] is Template && ds[q] == ds[p]
            && ks[p].node == ks[q].node ==> ts[p] == ts[q]
}

/// A typing of the ports that the declarations `ds` allow: concrete
/// declarations kept, ports of one node declared with one template
/// parameter typed alike, and a port still a parameter has its own.
pub open spec fn consistent_typing(ks: Seq<PortKeyV>, ds: Seq<MsgTypeId>, ts: Seq<MsgTypeId>) -> bool {
    &&& agrees(ds, ts)
    &&& tied(ks, ds, ts)
    &&& unsettled_declared(ds, ts)
}

/// A template inference fault means every end of the edge is a template
/// parameter.
proof fn lemma_template_fault_ends(conv: Map<(MsgTypeId, MsgTypeId), ()>, ts: Seq<MsgTypeId>, e: EdgeV)
    requires
        edge_guess(conv, ts, e) == Err::<MsgTypeId, ErrorV>(ErrorV::TemplateInferFault),
    ensures
        !has_concrete_end(ts, e),
{
    let tx = types_at(ts, e.tx);
    let rx = types_at(ts, e.rx);
    crate::conversion::law_guess_fits(conv, tx, rx);
    assert forall|k: int| 0 <= k < e.tx.len() implies (#[trigger] ts[e.tx[k] as int]) is Template by {
        assert((tx + rx)[k] == ts[e.tx[k] as int]);
    }
    assert forall|k: int| 0 <= k < e.rx.len() implies (#[trigger] ts[e.rx[k] as int]) is Template by {
        assert((tx + rx)[tx.len() + k] == ts[e.rx[k] as int]);
    }
}

/// A port that still has a template parameter has the one it was declared with.
pub open spec fn unsettled_declared(ds: Seq<MsgTypeId>, ts: Seq<MsgTypeId>) -> bool {
    forall|p: int| 0 <= p < ts.len() && (#[trigger] ts[p]) is Template ==> p < ds.len() && ts[p] == ds[p]
}

/// The current types keep every type declared concrete in `ds`.
pub open spec fn agrees(ds: Seq<MsgTypeId>, ts: Seq<MsgTypeId>) -> bool {
    &&& ds.len() == ts.len()
    &&& forall|p: int| 0 <= p < ds.len() && !(ds[p] is Template) ==> #[trigger] ts[p] == ds[p]
}

/// Every settled edge with no end declared a template parameter (in `ds`)
/// is settled to its own choice.
pub open spec fn plain_settled(
    conv: Map<(MsgTypeId, MsgTypeId), ()>,
    ds: Seq<MsgTypeId>,
    es: Seq<EdgeV>,
    st: Seq<EdgeState>,
) -> bool {
    forall|e: int|
        0 <= e < st.len() && e < es.len() && edge_plain(ds, es[e]) && (#[trigger] st[e]) is Done ==> edge_choice(
            conv,
            ds,
            es[e],
        ) == Ok::<MsgTypeId, ErrorV>(st[e]->Done_0)
}

/// On an edge with no end declared a template parameter, the current types
/// are the declared ones.
proof fn lemma_plain_types(ds: Seq<MsgTypeId>, ts: Seq<MsgTypeId>, e: EdgeV)
    requires
        agrees(ds, ts),
        edge_plain(ds, e),
        forall|k: int| 0 <= k < e.tx.len() ==> #[trigger] e.tx[k] < ds.len(),
        forall|k: int| 0 <= k < e.rx.len() ==> #[trigger] e.rx[k] < ds.len(),
    ensures
        types_at(ts, e.tx) == types_at(ds, e.tx),
        types_at(ts, e.rx) == types_at(ds, e.rx),
{
    assert forall|k: int| 0 <= k < e.tx.len() implies #[trigger] types_at(ts, e.tx)[k] == types_at(ds, e.tx)[k] by {
        assert(!(ds[e.tx[k] as int] is Template));
    }
    assert forall|k: int| 0 <= k < e.rx.len() implies #[trigger] types_at(ts, e.rx)[k] == types_at(ds, e.rx)[k] by {
        assert(!(ds[e.rx[k] as int] is Template));
    }
    assert(types_at(ts, e.tx) =~= types_at(ds, e.tx));
    assert(types_at(ts, e.rx) =~= types_at(ds, e.rx));
}

/// The edge types when no port is a template: each edge's own choice, with
/// a failed template inference taken as any payload; the first other
/// failure decides the error.
pub open spec fn plain_inference(conv: Map<(MsgTypeId, MsgTypeId), ()>, ts: Seq<MsgTypeId>, es: Seq<EdgeV>) -> Result<
    Seq<MsgTypeId>,
    ErrorV,
>
    decreases es.len(),
{
    if es.len() == 0 {
        Ok(Seq::empty())
    } else {
        match plain_inference(conv, ts, es.drop_last()) {
            Err(e) => Err(e),
            Ok(cs) => match edge_guess(conv, ts, es.last()) {
                Ok(t) => Ok(cs.push(t)),
                Err(ErrorV::TemplateInferFault) => Ok(cs.push(MsgTypeId::Any)),
                Err(e) => Err(e),
            },
        }
    }
}

/// How many edges are pending.
pub open spec fn pending_count(s: Seq<EdgeState>) -> nat
    decreases s.len(),
{
    if s.len() == 0 {
        0
    } else {
        pending_count(s.drop_last()) + if s.last() is Pending {
            1nat
        } else {
            0nat
        }
    }
}

/// Fewer pending edges: every edge pending in `b` was pending in `a`, and one
/// pending in `a` is not in `b`.
pub proof fn lemma_pending_count(a: Seq<EdgeState>, b: Seq<EdgeState>, w: int)
    requires
        a.len() == b.len(),
        forall|i: int| 0 <= i < b.len() && (#[trigger] b[i]) is Pending ==> a[i] is Pending,
    ensures
        pending_count(b) <= pending_count(a),
        0 <= w < a.len() && a[w] is Pending && !(b[w] is Pending) ==> pending_count(b) < pending_count(a),
    decreases a.len(),
{
    if a.len() > 0 {
        let n = a.len() - 1;
        assert forall|i: int| 0 <= i < b.drop_last().len() && (#[trigger] b.drop_last()[i]) is Pending implies a.drop_last()[i] is Pending by {
            assert(b.drop_last()[i] == b[i]);
        }
        lemma_pending_count(a.drop_last(), b.drop_last(), w);
        assert(b[n] is Pending ==> a[n] is Pending);
    }
}

/// The ports among the first `n` that share `port`'s node and whose type
/// is now the template parameter `id`, `port` itself left out, in port order.
pub open spec fn assoc_upto(ks: Seq<PortKeyV>, ts: Seq<MsgTypeId>, port: int, id: usize, n: int) -> Seq<usize>
    decreases n,
{
    if n <= 0 {
        Seq::empty()
    } else {
        let prev = assoc_upto(ks, ts, port, id, n - 1);
        let j = n - 1;
        if j != port && ks[j].node == ks[port].node && ts[j] == MsgTypeId::Template(id) {
            prev.push(j as usize)
        } else {
            prev
        }
    }
}

/// The edges among the first `n` with an end at `port`, in edge order.
pub open spec fn conn_upto(es: Seq<EdgeV>, port: usize, n: int) -> Seq<usize>
    decreases n,
{
    if n <= 0 {
        Seq::empty()
    } else {
        let prev = conn_upto(es, port, n - 1);
        if es[n - 1].tx.contains(port) || es[n - 1].rx.contains(port) {
            prev.push((n - 1) as usize)
        } else {
            prev
        }
    }
}

/// The types `ts` after `port`'s template parameter `id` took `t`: every
/// port of `port`'s node whose type is that parameter has `t`.
pub open spec fn settle_group(ks: Seq<PortKeyV>, ts: Seq<MsgTypeId>, port: int, id: usize, t: MsgTypeId) -> Seq<MsgTypeId> {
    Seq::new(
        ts.len(),
        |q: int|
            if ks[q].node == ks[port].node && ts[q] == MsgTypeId::Template(id) {
                t
            } else {
                ts[q]
            },
    )
}

/// The types after an edge settled to `t`: each end, from the `i`-th on,
/// that is still a template parameter gives `t` to its group.
pub open spec fn settle_ends(ks: Seq<PortKeyV>, ts: Seq<MsgTypeId>, ends: Seq<usize>, i: int, t: MsgTypeId) -> Seq<MsgTypeId>
    decreases ends.len() - i,
{
    if i >= ends.len() {
        ts
    } else {
        let ts1 = match ts[ends[i] as int] {
            MsgTypeId::Template(id) => settle_group(ks, ts, ends[i] as int, id, t),
            _ => ts,
        };
        settle_ends(ks, ts1, ends, i + 1, t)
    }
}

/// Visiting an edge from types `ts` and edge states `st` (`conv`: the
/// conversions; `ks`, `es`: the ports and edges): an edge that is not
/// pending is left alone; otherwise, while it is being visited, the edges
/// through the ports related to each of its template ends are tried
/// ([`trial_ends`]); then its type is chosen from the types of its ends.  A
/// failed choice leaves it pending with the choice's error; a type chosen
/// settles it and replaces the template parameter of its ends
/// ([`settle_ends`]).
pub open spec fn visit_spec(
    conv: Map<(MsgTypeId, MsgTypeId), ()>,
    ks: Seq<PortKeyV>,
    es: Seq<EdgeV>,
    ts: Seq<MsgTypeId>,
    st: Seq<EdgeState>,
    edge: int,
) -> (Seq<MsgTypeId>, Seq<EdgeState>, Result<(), ErrorV>)
    decreases pending_count(st), 0nat, 0nat,
{
    if !(0 <= edge < st.len()) || !(st[edge] is Pending) {
        (ts, st, Ok(()))
    } else {
        let sv = st.update(edge, EdgeState::Visiting);
        proof {
            assert forall|i: int| 0 <= i < sv.len() && (#[trigger] sv[i]) is Pending implies st[i] is Pending by {}
            lemma_pending_count(st, sv, edge);
        }
        let ends = es[edge].tx + es[edge].rx;
        let (ts1, st1) = trial_ends(conv, ks, es, ts, sv, ends, 0, pending_count(sv));
        let st2 = st1.update(edge, EdgeState::Pending);
        match edge_guess(conv, ts1, es[edge]) {
            Ok(t) => (settle_ends(ks, ts1, ends, 0, t), st2.update(edge, EdgeState::Done(t)), Ok(())),
            Err(x) => (ts1, st2, Err(x)),
        }
    }
}

/// Trying, for each end of `ends` from the `i`-th on that is a template
/// parameter, the edges through the other ports of its node with that
/// parameter ([`trial_related`]).
pub open spec fn trial_ends(
    conv: Map<(MsgTypeId, MsgTypeId), ()>,
    ks: Seq<PortKeyV>,
    es: Seq<EdgeV>,
    ts: Seq<MsgTypeId>,
    st: Seq<EdgeState>,
    ends: Seq<usize>,
    i: int,
    bound: nat,
) -> (Seq<MsgTypeId>, Seq<EdgeState>)
    decreases bound, 3nat, ends.len() - i,
{
    if i >= ends.len() {
        (ts, st)
    } else {
        let port = ends[i] as int;
        let (ts1, st1) = match ts[port] {
            MsgTypeId::Template(id) => trial_related(conv, ks, es, ts, st, assoc_upto(ks, ts, port, id, ks.len() as int), 0, bound),
            _ => (ts, st),
        };
        trial_ends(conv, ks, es, ts1, st1, ends, i + 1, bound)
    }
}

/// Trying, for each related port of `assoc` from the `a`-th on, the edges
/// through it ([`trial_edges`]), until one of them is settled.
pub open spec fn trial_related(
    conv: Map<(MsgTypeId, MsgTypeId), ()>,
    ks: Seq<PortKeyV>,
    es: Seq<EdgeV>,
    ts: Seq<MsgTypeId>,
    st: Seq<EdgeState>,
    assoc: Seq<usize>,
    a: int,
    bound: nat,
) -> (Seq<MsgTypeId>, Seq<EdgeState>)
    decreases bound, 2nat, assoc.len() - a,
{
    if a >= assoc.len() {
        (ts, st)
    } else {
        let (ts1, st1, found) = trial_edges(conv, ks, es, ts, st, conn_upto(es, assoc[a], es.len() as int), 0, bound);
        if found {
            (ts1, st1)
        } else {
            trial_related(conv, ks, es, ts1, st1, assoc, a + 1, bound)
        }
    }
}

/// Visiting the edges of `conn` from the `c`-th on, until one visit
/// succeeds (then `true`); `bound` is the number of edges pending when the
/// visit that tries them began.
pub open spec fn trial_edges(
    conv: Map<(MsgTypeId, MsgTypeId), ()>,
    ks: Seq<PortKeyV>,
    es: Seq<EdgeV>,
    ts: Seq<MsgTypeId>,
    st: Seq<EdgeState>,
    conn: Seq<usize>,
    c: int,
    bound: nat,
) -> (Seq<MsgTypeId>, Seq<EdgeState>, bool)
    decreases bound, 1nat, conn.len() - c,
{
    if c >= conn.len() || pending_count(st) > bound {
        (ts, st, false)
    } else {
        let (ts1, st1, r) = visit_spec(conv, ks, es, ts, st, conn[c] as int);
        if r is Ok {
            (ts1, st1, true)
        } else {
            trial_edges(conv, ks, es, ts1, st1, conn, c + 1, bound)
        }
    }
}

/// Inference from edge `e` on: each edge is visited in order; a template
/// inference fault settles the edge to any payload, any other error ends
/// inference.
pub open spec fn infer_from(
    conv: Map<(MsgTypeId, MsgTypeId), ()>,
    ks: Seq<PortKeyV>,
    es: Seq<EdgeV>,
    ts: Seq<MsgTypeId>,
    st: Seq<EdgeState>,
    e: int,
) -> Result<(Seq<MsgTypeId>, Seq<EdgeState>), ErrorV>
    decreases es.len() - e,
{
    if e >= es.len() {
        Ok((ts, st))
    } else {
        let (ts1, st1, r) = visit_spec(conv, ks, es, ts, st, e);
        match r {
            Ok(_) => infer_from(conv, ks, es, ts1, st1, e + 1),
            Err(ErrorV::TemplateInferFault) => infer_from(conv, ks, es, ts1, st1.update(e, EdgeState::Done(MsgTypeId::Any)), e + 1),
            Err(x) => Err(x),
        }
    }
}

/// The inference of a graph with port keys `ks`, declared types `ts` and
/// edges `es`: every edge pending at first, visited in order; the result is
/// the type of each edge and of each port.
pub open spec fn inference(conv: Map<(MsgTypeId, MsgTypeId), ()>, ks: Seq<PortKeyV>, ts: Seq<MsgTypeId>, es: Seq<EdgeV>) -> Result<
    (Seq<MsgTypeId>, Seq<MsgTypeId>),
    ErrorV,
> {
    match infer_from(conv, ks, es, ts, Seq::new(es.len(), |i: int| EdgeState::Pending), 0) {
        Ok((tys, st)) => Ok((Seq::new(es.len(), |i: int| st[i]->Done_0), tys)),
        Err(x) => Err(x),
    }
}

/// The view of a result that carries nothing.
pub open spec fn unit_view(r: Result<(), Error>) -> Result<(), ErrorV> {
    match r {
        Ok(_) => Ok(()),
        Err(x) => Err(x@),
    }
}

/// A chosen type is never a template parameter.
pub proof fn lemma_guess_not_template(conv: Map<(MsgTypeId, MsgTypeId), ()>, tx: Seq<MsgTypeId>, rx: Seq<MsgTypeId>)
    ensures
        guess_spec(conv, tx, rx) matches Ok(t) ==> !(t is Template),
{
    let all = tx + rx;
    lemma_first_index(all, fits_all_native(conv, tx, rx));
    lemma_first_index(all, fits_all(conv, tx, rx));
}

/// A settled edge never carries a template parameter.
pub open spec fn ok_state(s: EdgeState) -> bool {
    match s {
        EdgeState::Done(t) => !(t is Template),
        _ => true,
    }
}

/// The inference state: port keys, current port types, edges, edge states.
pub struct Infer {
    pub keys: Vec<PortKey>,
    pub types: Vec<MsgTypeId>,
    pub edges: Vec<Edge>,
    pub state: Vec<EdgeState>,
    /// for each port, the edge whose chosen type settled its template parameter
    pub settled_by: Ghost<Seq<Option<int>>>,
}

impl Infer {
    /// Port keys and types match in number, every edge names existing ports,
    /// and every edge has a state.
    pub open spec fn wf(&self) -> bool {
        &&& self.keys@.len() == self.types@.len()
        &&& self.state@.len() == self.edges@.len()
        &&& forall|e: int, k: int|
            0 <= e < self.edges@.len() && 0 <= k < self.edges@[e].tx@.len() ==> #[trigger] self.edges@[e].tx@[k]
                < self.types@.len()
        &&& forall|e: int, k: int|
            0 <= e < self.edges@.len() && 0 <= k < self.edges@[e].rx@.len() ==> #[trigger] self.edges@[e].rx@[k]
                < self.types@.len()
    }

    /// What a visit keeps: the keys, the edges, the shape; settled or
    /// visiting edges stay as they are; a port type changes only from a
    /// template parameter to a type that is none; pending edges do not end
    /// visiting.
    pub open spec fn keeps(old: &Infer, new: &Infer, edge: int) -> bool {
        &&& new.wf()
        &&& keys_view(new.keys@) == keys_view(old.keys@)
        &&& edges_view(new.edges@) == edges_view(old.edges@)
        &&& new.types@.len() == old.types@.len()
        &&& new.state@.len() == old.state@.len()
        &&& forall|e: int| 0 <= e < old.state@.len() && e != edge && !(old.state@[e] is Pending) ==> #[trigger] new.state@[e]
            == old.state@[e]
        &&& forall|e: int| 0 <= e < old.state@.len() && (#[trigger] new.state@[e]) is Pending ==> old.state@[e] is Pending
        &&& forall|e: int| 0 <= e < old.state@.len() && e != edge && old.state@[e] is Pending ==> !(#[trigger] new.state@[e] is Visiting)
        &&& forall|p: int| 0 <= p < old.types@.len() && !(old.types@[p] is Template) ==> #[trigger] new.types@[p] == old.types@[p]
        &&& forall|p: int| 0 <= p < old.types@.len() && (#[trigger] new.types@[p]) is Template ==> new.types@[p] == old.types@[p]
        &&& forall|d: int| 0 <= d < old.state@.len() && d != edge && ok_state(old.state@[d]) ==> ok_state(#[trigger] new.state@[d])
    }

    /// Port `j` is another port of `port`'s node declared with template parameter `id`.
    spec fn is_associated(&self, port: int, id: usize, j: int) -> bool {
        j != port && self.keys@[j].node@ == self.keys@[port].node@ && self.types@[j] == MsgTypeId::Template(id)
    }

    /// Edge `e` goes through `port`, on either side.
    spec fn is_connected(&self, port: usize, e: int) -> bool {
        self.edges@[e].tx@.contains(port) || self.edges@[e].rx@.contains(port)
    }

    /// The ports that share `port`'s node and its template parameter `id`,
    /// each once, in port order.
    fn associated(&self, port: usize, id: usize) -> (r: Vec<usize>)
        requires
            self.wf(),
            port < self.keys@.len(),
        ensures
            forall|k: int| 0 <= k < r@.len() ==> #[trigger] r@[k] < self.keys@.len() && self.is_associated(port as int, id, r@[k] as int),
            forall|a: int, b: int| 0 <= a < b < r@.len() ==> r@[a] < r@[b],
            forall|j: int| 0 <= j < self.keys@.len() && self.is_associated(port as int, id, j) ==> r@.contains(j as usize),
            r@ == assoc_upto(keys_view(self.keys@), self.types@, port as int, id, self.keys@.len() as int),
    {
        let mut r: Vec<usize> = Vec::new();
        let mut j: usize = 0;
        while j < self.keys.len()
            invariant
                self.wf(),
                port < self.keys@.len(),
                j <= self.keys@.len(),
                forall|k: int| 0 <= k < r@.len() ==> #[trigger] r@[k] < j && self.is_associated(port as int, id, r@[k] as int),
                forall|a: int, b: int| 0 <= a < b < r@.len() ==> r@[a] < r@[b],
                forall|i: int| 0 <= i < j && self.is_associated(port as int, id, i) ==> r@.contains(i as usize),
                r@ == assoc_upto(keys_view(self.keys@), self.types@, port as int, id, j as int),
            decreases self.keys@.len() - j,
        {
            proof {
                assert(keys_view(self.keys@)[j as int] == self.keys@[j as int]@);
                assert(keys_view(self.keys@)[port as int] == self.keys@[port as int]@);
            }
            let ghost r0 = r@;
            if j != port && str_eq(self.keys[j].node.as_str(), self.keys[port].node.as_str()) {
                match self.types[j] {
                    MsgTypeId::Template(t) => {
                        if t == id {
                            r.push(j);
                            proof {
                                assert(r@[r0.len() as int] == j);
                                assert forall|i: int| 0 <= i < j && self.is_associated(port as int, id, i) implies r@.contains(i as usize) by {
                                    let q = choose|q: int| 0 <= q < r0.len() && r0[q] == i as usize;
                                    assert(r@[q] == r0[q]);
                                }
                            }
                        }
                    },
                    _ => {},
                }
            }
            proof {
                if self.is_associated(port as int, id, j as int) {
                    assert(r@[r@.len() - 1] == j);
                }
            }
            j += 1;
        }
        r
    }

    /// The edges through a port, each once, in edge order.
    fn connected(&self, port: usize) -> (r: Vec<usize>)
        requires
            self.wf(),
        ensures
            forall|k: int| 0 <= k < r@.len() ==> #[trigger] r@[k] < self.edges@.len() && self.is_connected(port, r@[k] as int),
            forall|a: int, b: int| 0 <= a < b < r@.len() ==> r@[a] < r@[b],
            forall|e: int| 0 <= e < self.edges@.len() && self.is_connected(port, e) ==> r@.contains(e as usize),
            r@ == conn_upto(edges_view(self.edges@), port, self.edges@.len() as int),
    {
        let mut r: Vec<usize> = Vec::new();
        let mut e: usize = 0;
        while e < self.edges.len()
            invariant
                self.wf(),
                e <= self.edges@.len(),
                forall|k: int| 0 <= k < r@.len() ==> #[trigger] r@[k] < e && self.is_connected(port, r@[k] as int),
                forall|a: int, b: int| 0 <= a < b < r@.len() ==> r@[a] < r@[b],
                forall|i: int| 0 <= i < e && self.is_connected(port, i) ==> r@.contains(i as usize),
                r@ == conn_upto(edges_view(self.edges@), port, e as int),
            decreases self.edges@.len() - e,
        {
            proof {
                assert(edges_view(self.edges@)[e as int] == self.edges@[e as int]@);
            }
            let ghost r0 = r@;
            if contains_index(&self.edges[e].tx, port) || contains_index(&self.edges[e].rx, port) {
                r.push(e);
                proof {
                    assert(r@[r0.len() as int] == e);
                    assert forall|i: int| 0 <= i < e && self.is_connected(port, i) implies r@.contains(i as usize) by {
                        let q = choose|q: int| 0 <= q < r0.len() && r0[q] == i as usize;
                        assert(r@[q] == r0[q]);
                    }
                }
            }
            e += 1;
        }
        r
    }

    /// The current types of the given ports.
    fn types_of(&self, ix: &Vec<usize>) -> (r: Vec<MsgTypeId>)
        requires
            forall|k: int| 0 <= k < ix@.len() ==> #[trigger] ix@[k] < self.types@.len(),
        ensures
            r@ == types_at(self.types@, ix@),
    {
        let mut r: Vec<MsgTypeId> = Vec::new();
        let mut k: usize = 0;
        while k < ix.len()
            invariant
                forall|k: int| 0 <= k < ix@.len() ==> #[trigger] ix@[k] < self.types@.len(),
                k <= ix@.len(),
                r@ == types_at(self.types@, ix@.take(k as int)),
            decreases ix@.len() - k,
        {
            r.push(self.types[ix[k]]);
            k += 1;
            proof {
                assert(r@ =~= types_at(self.types@, ix@.take(k as int)));
            }
        }
        proof {
            assert(ix@.take(k as int) =~= ix@);
        }
        r
    }

    /// Settles the type of `edge`, first trying the other edges through
    /// ports related to its template ports; the chosen type then replaces
    /// the template parameter on every port of the node declared with it
    /// ([`end_settled`]; `settled_by` records the edge).  An edge that is
    /// not pending is left alone.  When the type cannot be chosen the edge
    /// stays pending and the error is the choice's over the current types.
    /// The types, edge states and result are exactly [`visit_spec`]'s.
    #[verifier::spinoff_prover]
    #[verifier::rlimit(100)]
    pub fn visit<F>(&mut self, edge: usize, table: &ConversionTable<F>, declared: Ghost<Seq<MsgTypeId>>) -> (r: Result<
        (),
        Error,
    >)
        requires
            old(self).wf(),
            edge < old(self).edges@.len(),
            table.well_formed(),
            agrees(declared@, old(self).types@),
            plain_settled(pairs_of(table@), declared@, edges_view(old(self).edges@), old(self).state@),
            tied(keys_view(old(self).keys@), declared@, old(self).types@),
            unsettled_declared(declared@, old(self).types@),
            done_typed(old(self).types@, old(self).state@, edges_view(old(self).edges@)),
            provenance(keys_view(old(self).keys@), declared@, old(self).types@, old(self).settled_by@, old(self).state@, edges_view(old(self).edges@)),
        ensures
            visit_spec(
                pairs_of(table@),
                keys_view(old(self).keys@),
                edges_view(old(self).edges@),
                old(self).types@,
                old(self).state@,
                edge as int,
            ) == (final(self).types@, final(self).state@, unit_view(r)),
            done_typed(final(self).types@, final(self).state@, edges_view(final(self).edges@)),
            provenance(keys_view(final(self).keys@), declared@, final(self).types@, final(self).settled_by@, final(self).state@, edges_view(final(self).edges@)),
            settled_since(old(self).settled_by@, old(self).state@, final(self).settled_by@),
            old(self).state@[edge as int] is Pending && r is Ok ==> forall|k: int|
                0 <= k < old(self).edges@[edge as int].tx@.len() && declared@[old(self).edges@[edge as int].tx@[k] as int] is Template
                    ==> #[trigger] end_settled(
                    keys_view(final(self).keys@),
                    declared@,
                    old(self).settled_by@,
                    old(self).state@,
                    final(self).types@,
                    final(self).settled_by@,
                    edge as int,
                    final(self).state@[edge as int]->Done_0,
                    old(self).edges@[edge as int].tx@[k] as int,
                ),
            old(self).state@[edge as int] is Pending && r is Ok ==> forall|k: int|
                0 <= k < old(self).edges@[edge as int].rx@.len() && declared@[old(self).edges@[edge as int].rx@[k] as int] is Template
                    ==> #[trigger] end_settled(
                    keys_view(final(self).keys@),
                    declared@,
                    old(self).settled_by@,
                    old(self).state@,
                    final(self).types@,
                    final(self).settled_by@,
                    edge as int,
                    final(self).state@[edge as int]->Done_0,
                    old(self).edges@[edge as int].rx@[k] as int,
                ),
            r matches Err(x) ==> edge_guess(pairs_of(table@), final(self).types@, final(self).edges@[edge as int]@) == Err::<
                MsgTypeId,
                ErrorV,
            >(x@),
            all_template_edges(declared@, edges_view(old(self).edges@)) && old(self).types@ == declared@ ==> final(self).types@
                == old(self).types@ && (r matches Err(x) ==> x@ is TemplateInferFault),
            Infer::keeps(&*old(self), &*final(self), edge as int),
            tied(keys_view(final(self).keys@), declared@, final(self).types@),
            unsettled_declared(declared@, final(self).types@),
            old(self).state@[edge as int] is Pending && r is Ok ==> forall|k: int|
                0 <= k < old(self).edges@[edge as int].tx@.len() ==> !(final(self).types@[#[trigger] old(self).edges@[edge as int].tx@[k] as int] is Template),
            old(self).state@[edge as int] is Pending && r is Ok ==> forall|k: int|
                0 <= k < old(self).edges@[edge as int].rx@.len() ==> !(final(self).types@[#[trigger] old(self).edges@[edge as int].rx@[k] as int] is Template),
            agrees(declared@, final(self).types@),
            plain_settled(pairs_of(table@), declared@, edges_view(final(self).edges@), final(self).state@),
            old(self).state@[edge as int] is Pending && edge_plain(declared@, old(self).edges@[edge as int]@) ==> match edge_guess(
                pairs_of(table@),
                declared@,
                old(self).edges@[edge as int]@,
            ) {
                Ok(t) => r is Ok && final(self).state@[edge as int] == EdgeState::Done(t),
                Err(x) => r matches Err(y) && y@ == x,
            },
            !(old(self).state@[edge as int] is Pending) ==> r is Ok && final(self).state@ == old(self).state@
                && final(self).types@ == old(self).types@,
            old(self).state@[edge as int] is Pending ==> match r {
                Ok(_) => final(self).state@[edge as int] matches EdgeState::Done(t) && !(t is Template),
                Err(_) => final(self).state@[edge as int] is Pending,
            },
            r matches Err(x) ==> (x@ is TemplateInferFault || x@ is ChannelTypeMismatch),
            no_templates(old(self).types@) && old(self).state@[edge as int] is Pending ==> {
                &&& final(self).types@ == old(self).types@
                &&& forall|e: int| 0 <= e < old(self).state@.len() && e != edge ==> #[trigger] final(self).state@[e]
                    == old(self).state@[e]
                &&& match edge_guess(pairs_of(table@), old(self).types@, old(self).edges@[edge as int]@) {
                    Ok(t) => r is Ok && final(self).state@[edge as int] == EdgeState::Done(t),
                    Err(e) => r matches Err(x) && x@ == e,
                }
            },
        decreases pending_count(old(self).state@),
    {
        match self.state[edge] {
            EdgeState::Pending => {},
            _ => {
                return Ok(());
            },
        }
        let ghost entry = *self;
        self.state.set(edge, EdgeState::Visiting);
        let ghost conv = pairs_of(table@);
        let ghost kv0 = keys_view(self.keys@);
        let ghost es0 = edges_view(self.edges@);
        let ghost sv0 = self.state@;
        let ghost bound: nat = pending_count(sv0);
        let mut endpoints: Vec<usize> = Vec::new();
        let mut k: usize = 0;
        while k < self.edges[edge].tx.len()
            invariant
                self.wf(),
                edge < self.edges@.len(),
                k <= self.edges@[edge as int].tx@.len(),
                forall|j: int| 0 <= j < endpoints@.len() ==> #[trigger] endpoints@[j] < self.types@.len(),
                endpoints@ == self.edges@[edge as int].tx@.take(k as int),
            decreases self.edges@[edge as int].tx@.len() - k,
        {
            endpoints.push(self.edges[edge].tx[k]);
            k += 1;
        }
        let mut k: usize = 0;
        while k < self.edges[edge].rx.len()
            invariant
                self.wf(),
                edge < self.edges@.len(),
                k <= self.edges@[edge as int].rx@.len(),
                forall|j: int| 0 <= j < endpoints@.len() ==> #[trigger] endpoints@[j] < self.types@.len(),
                endpoints@ == self.edges@[edge as int].tx@ + self.edges@[edge as int].rx@.take(k as int),
            decreases self.edges@[edge as int].rx@.len() - k,
        {
            endpoints.push(self.edges[edge].rx[k]);
            k += 1;
        }
        let ghost ends = es0[edge as int].tx + es0[edge as int].rx;
        proof {
            assert(es0[edge as int] == self.edges@[edge as int]@);
            assert(endpoints@ == ends);
        }
        let mut ei: usize = 0;
        while ei < endpoints.len()
            invariant
                table.well_formed(),
                edge < self.edges@.len(),
                entry.wf(),
                entry == *old(self),
                entry.state@[edge as int] is Pending,
                self.state@[edge as int] is Visiting,
                Infer::keeps(&entry, &*self, edge as int),
                agrees(declared@, self.types@),
                tied(keys_view(self.keys@), declared@, self.types@),
                unsettled_declared(declared@, self.types@),
                done_typed(self.types@, self.state@, edges_view(self.edges@)),
                provenance(keys_view(self.keys@), declared@, self.types@, self.settled_by@, self.state@, edges_view(self.edges@)),
                settled_since(entry.settled_by@, entry.state@, self.settled_by@),
                all_template_edges(declared@, edges_view(entry.edges@)) && entry.types@ == declared@ ==> self.types@ == entry.types@,
                conv == pairs_of(table@),
                kv0 == keys_view(self.keys@),
                es0 == edges_view(self.edges@),
                sv0 == entry.state@.update(edge as int, EdgeState::Visiting),
                bound == pending_count(sv0),
                endpoints@ == ends,
                trial_ends(conv, kv0, es0, entry.types@, sv0, ends, 0, bound) == trial_ends(conv, kv0, es0, self.types@, self.state@, ends, ei as int, bound),
                plain_settled(pairs_of(table@), declared@, edges_view(self.edges@), self.state@),
                no_templates(entry.types@) ==> self.types@ == entry.types@ && forall|e: int|
                    0 <= e < entry.state@.len() && e != edge ==> #[trigger] self.state@[e] == entry.state@[e],
                forall|j: int| 0 <= j < endpoints@.len() ==> #[trigger] endpoints@[j] < self.types@.len(),
            decreases endpoints@.len() - ei,
        {
            let port = endpoints[ei];
            match self.types[port] {
                MsgTypeId::Template(id) => {
                    proof {
                        if no_templates(entry.types@) {
                            assert(!(entry.types@[port as int] is Template));
                        }
                    }
                    let ghost tp = self.types@;
                    let ghost sp = self.state@;
                    let assoc = self.associated(port, id);
                    let mut found = false;
                    let mut ai: usize = 0;
                    while ai < assoc.len() && !found
                        invariant
                            table.well_formed(),
                            edge < self.edges@.len(),
                            entry.wf(),
                            entry == *old(self),
                            entry.state@[edge as int] is Pending,
                            self.state@[edge as int] is Visiting,
                            Infer::keeps(&entry, &*self, edge as int),
                            agrees(declared@, self.types@),
                            tied(keys_view(self.keys@), declared@, self.types@),
                            unsettled_declared(declared@, self.types@),
                            done_typed(self.types@, self.state@, edges_view(self.edges@)),
                            provenance(keys_view(self.keys@), declared@, self.types@, self.settled_by@, self.state@, edges_view(self.edges@)),
                settled_since(entry.settled_by@, entry.state@, self.settled_by@),
                            all_template_edges(declared@, edges_view(entry.edges@)) && entry.types@ == declared@ ==> self.types@ == entry.types@,
                            conv == pairs_of(table@),
                            kv0 == keys_view(self.keys@),
                            es0 == edges_view(self.edges@),
                            sv0 == entry.state@.update(edge as int, EdgeState::Visiting),
                            bound == pending_count(sv0),
                            assoc@ == assoc_upto(kv0, tp, port as int, id, kv0.len() as int),
                            !found ==> trial_related(conv, kv0, es0, tp, sp, assoc@, 0, bound) == trial_related(conv, kv0, es0, self.types@, self.state@, assoc@, ai as int, bound),
                            found ==> trial_related(conv, kv0, es0, tp, sp, assoc@, 0, bound) == (self.types@, self.state@),
                            plain_settled(pairs_of(table@), declared@, edges_view(self.edges@), self.state@),
                            !no_templates(entry.types@),
                            forall|k: int| 0 <= k < assoc@.len() ==> #[trigger] assoc@[k] < self.keys@.len(),
                        decreases assoc@.len() - ai,
                    {
                        let other = assoc[ai];
                        let ghost ta = self.types@;
                        let ghost sa = self.state@;
                        let conn = self.connected(other);
                        let mut ci: usize = 0;
                        while ci < conn.len() && !found
                            invariant
                                table.well_formed(),
                                edge < self.edges@.len(),
                                entry.wf(),
                                entry == *old(self),
                                entry.state@[edge as int] is Pending,
                                self.state@[edge as int] is Visiting,
                                Infer::keeps(&entry, &*self, edge as int),
                                agrees(declared@, self.types@),
                                tied(keys_view(self.keys@), declared@, self.types@),
                                unsettled_declared(declared@, self.types@),
                                done_typed(self.types@, self.state@, edges_view(self.edges@)),
                                provenance(keys_view(self.keys@), declared@, self.types@, self.settled_by@, self.state@, edges_view(self.edges@)),
                settled_since(entry.settled_by@, entry.state@, self.settled_by@),
                                all_template_edges(declared@, edges_view(entry.edges@)) && entry.types@ == declared@ ==> self.types@ == entry.types@,
                                conv == pairs_of(table@),
                                kv0 == keys_view(self.keys@),
                                es0 == edges_view(self.edges@),
                                sv0 == entry.state@.update(edge as int, EdgeState::Visiting),
                                bound == pending_count(sv0),
                                conn@ == conn_upto(es0, other, es0.len() as int),
                                !found ==> trial_edges(conv, kv0, es0, ta, sa, conn@, 0, bound) == trial_edges(conv, kv0, es0, self.types@, self.state@, conn@, ci as int, bound),
                                found ==> trial_edges(conv, kv0, es0, ta, sa, conn@, 0, bound) == (self.types@, self.state@, true),
                                plain_settled(pairs_of(table@), declared@, edges_view(self.edges@), self.state@),
                                !no_templates(entry.types@),
                                forall|k: int| 0 <= k < conn@.len() ==> #[trigger] conn@[k] < self.edges@.len(),
                            decreases conn@.len() - ci,
                        {
                            let next = conn[ci];
                            let ghost before = *self;
                            proof {
                                lemma_pending_count(entry.state@, self.state@, edge as int);
                                assert forall|i: int| 0 <= i < self.state@.len() && (#[trigger] self.state@[i]) is Pending implies sv0[i] is Pending by {
                                    assert(entry.state@[i] is Pending);
                                }
                                lemma_pending_count(sv0, self.state@, edge as int);
                                assert(conn@[ci as int] == next);
                            }
                            let res = self.visit(next, table, declared);
                            proof {
                                lemma_settled_since_trans(entry.settled_by@, entry.state@, before.settled_by@, before.state@, self.settled_by@);
                                assert(Infer::keeps(&entry, &*self, edge as int)) by {
                                    assert forall|p: int| 0 <= p < entry.types@.len() && (#[trigger] self.types@[p]) is Template implies self.types@[p] == entry.types@[p] by {
                                        assert(self.types@[p] == before.types@[p]);
                                    }
                                    assert forall|d: int| 0 <= d < entry.state@.len() && d != edge && ok_state(entry.state@[d]) implies ok_state(#[trigger] self.state@[d]) by {
                                        assert(ok_state(before.state@[d]));
                                        if d == next {
                                            if before.state@[d] is Pending {
                                            } else {
                                                assert(self.state@[d] == before.state@[d]);
                                            }
                                        }
                                    }
                                }
                                if next == edge {
                                    assert(self.state@[edge as int] == before.state@[edge as int]);
                                } else {
                                    assert(self.state@[edge as int] == before.state@[edge as int]);
                                }
                            }
                            if res.is_ok() {
                                found = true;
                            }
                            ci += 1;
                        }
                        proof {
                            if !found {
                                assert(ci >= conn@.len());
                            }
                        }
                        ai += 1;
                    }
                    proof {
                        if !found {
                            assert(ai >= assoc@.len());
                        }
                    }
                },
                _ => {},
            }
            ei += 1;
        }
        let ghost ts1 = self.types@;
        let ghost st1 = self.state@;
        proof {
            assert(trial_ends(conv, kv0, es0, entry.types@, sv0, ends, 0, bound) == (ts1, st1));
        }
        self.state.set(edge, EdgeState::Pending);
        proof {
            assert(edges_view(self.edges@)[edge as int] == self.edges@[edge as int]@);
            assert(edges_view(entry.edges@)[edge as int] == entry.edges@[edge as int]@);
        }
        let tx = self.types_of(&self.edges[edge].tx);
        let rx = self.types_of(&self.edges[edge].rx);
        proof {
            if edge_plain(declared@, entry.edges@[edge as int]@) {
                let ev = self.edges@[edge as int]@;
                assert forall|k: int| 0 <= k < ev.tx.len() implies #[trigger] ev.tx[k] < declared@.len() by {
                    assert(self.edges@[edge as int].tx@[k] < self.types@.len());
                }
                assert forall|k: int| 0 <= k < ev.rx.len() implies #[trigger] ev.rx[k] < declared@.len() by {
                    assert(self.edges@[edge as int].rx@[k] < self.types@.len());
                }
                lemma_plain_types(declared@, self.types@, ev);
            }
        }
        let ghost ev0 = self.edges@[edge as int]@;
        let ghost at = all_template_edges(declared@, edges_view(entry.edges@)) && entry.types@ == declared@;
        proof {
            if at {
                assert(edges_view(entry.edges@)[edge as int] == ev0);
                assert forall|k: int| 0 <= k < ev0.tx.len() implies (#[trigger] self.types@[ev0.tx[k] as int]) is Template by {
                    assert(edges_view(entry.edges@)[edge as int].tx[k] == ev0.tx[k]);
                }
                assert forall|k: int| 0 <= k < ev0.rx.len() implies (#[trigger] self.types@[ev0.rx[k] as int]) is Template by {
                    assert(edges_view(entry.edges@)[edge as int].rx[k] == ev0.rx[k]);
                }
                lemma_all_template_guess(pairs_of(table@), self.types@, ev0);
            }
        }
        let selected = match guess_channel_type(&tx, &rx, table) {
            Ok(t) => t,
            Err(e) => {
                proof {
                    assert(edges_view(self.edges@)[edge as int] == ev0);
                }
                return Err(e);
            },
        };
        proof {
            lemma_guess_not_template(pairs_of(table@), tx@, rx@);
            lemma_guess_concrete(pairs_of(table@), self.types@, ev0);
            assert(edges_view(self.edges@)[edge as int] == ev0);
        }
        self.state.set(edge, EdgeState::Done(selected));
        let ghost sd = self.state@;
        let mut ei: usize = 0;
        while ei < endpoints.len()
            invariant
                edge < self.edges@.len(),
                entry.wf(),
                entry == *old(self),
                entry.state@[edge as int] is Pending,
                self.state@[edge as int] == EdgeState::Done(selected),
                !(selected is Template),
                Infer::keeps(&entry, &*self, edge as int),
                agrees(declared@, self.types@),
                tied(keys_view(self.keys@), declared@, self.types@),
                unsettled_declared(declared@, self.types@),
                done_typed(self.types@, self.state@, edges_view(self.edges@)),
                provenance(keys_view(self.keys@), declared@, self.types@, self.settled_by@, self.state@, edges_view(self.edges@)),
                settled_since(entry.settled_by@, entry.state@, self.settled_by@),
                !(all_template_edges(declared@, edges_view(entry.edges@)) && entry.types@ == declared@),
                plain_settled(pairs_of(table@), declared@, edges_view(self.edges@), self.state@),
                no_templates(entry.types@) ==> self.types@ == entry.types@ && forall|e: int|
                    0 <= e < entry.state@.len() && e != edge ==> #[trigger] self.state@[e] == entry.state@[e],
                forall|j: int| 0 <= j < endpoints@.len() ==> #[trigger] endpoints@[j] < self.types@.len(),
                endpoints@ == entry.edges@[edge as int].tx@ + entry.edges@[edge as int].rx@,
                kv0 == keys_view(self.keys@),
                es0 == edges_view(self.edges@),
                endpoints@ == ends,
                self.state@ == sd,
                settle_ends(kv0, ts1, ends, 0, selected) == settle_ends(kv0, self.types@, ends, ei as int, selected),
                ei <= endpoints@.len(),
                forall|j: int| 0 <= j < ei ==> !(self.types@[#[trigger] endpoints@[j] as int] is Template),
            decreases endpoints@.len() - ei,
        {
            let port = endpoints[ei];
            match self.types[port] {
                MsgTypeId::Template(id) => {
                    proof {
                        if no_templates(entry.types@) {
                            assert(!(entry.types@[port as int] is Template));
                        }
                    }
                    let ghost t0 = self.types@;
                    let ghost by0 = self.settled_by@;
                    let ghost kv = keys_view(self.keys@);
                    let ghost grp = |q: int| declared@[q] == MsgTypeId::Template(id) && kv[q].node == kv[port as int].node;
                    proof {
                        assert(declared@[port as int] == MsgTypeId::Template(id));
                        assert forall|q: int| 0 <= q < t0.len() && #[trigger] grp(q) implies t0[q] == MsgTypeId::Template(id) by {
                            assert(t0[q] == t0[port as int]);
                        }
                    }
                    let mut p: usize = 0;
                    while p < self.types.len()
                        invariant
                            edge < self.edges@.len(),
                            entry.wf(),
                            entry == *old(self),
                            entry.state@[edge as int] is Pending,
                            self.state@[edge as int] == EdgeState::Done(selected),
                            !(selected is Template),
                            Infer::keeps(&entry, &*self, edge as int),
                            agrees(declared@, self.types@),
                            plain_settled(pairs_of(table@), declared@, edges_view(self.edges@), self.state@),
                            port < self.types@.len(),
                            p <= self.types@.len(),
                            !no_templates(entry.types@),
                            kv == keys_view(self.keys@),
                            kv == kv0,
                            self.state@ == sd,
                            self.types@.len() == t0.len(),
                            grp == (|q: int| declared@[q] == MsgTypeId::Template(id) && kv[q].node == kv[port as int].node),
                            tied(kv, declared@, t0),
                            unsettled_declared(declared@, t0),
                            done_typed(t0, self.state@, edges_view(self.edges@)),
                            self.wf(),
                            provenance(kv, declared@, t0, by0, self.state@, edges_view(self.edges@)),
                            settled_since(entry.settled_by@, entry.state@, by0),
                            self.settled_by@.len() == by0.len(),
                            forall|q: int| 0 <= q < by0.len() ==> #[trigger] self.settled_by@[q] == (if q < p && grp(q) { Some(edge as int) } else { by0[q] }),
                            declared@.len() == t0.len(),
                            kv.len() == t0.len(),
                            forall|q: int| 0 <= q < t0.len() && #[trigger] grp(q) ==> t0[q] == MsgTypeId::Template(id),
                            forall|q: int| 0 <= q < t0.len() ==> #[trigger] self.types@[q] == (if q < p && grp(q) { selected } else { t0[q] }),
                        decreases self.types@.len() - p,
                    {
                        proof {
                            assert(kv[p as int] == self.keys@[p as int]@);
                            assert(kv[port as int] == self.keys@[port as int]@);
                        }
                        if str_eq(self.keys[p].node.as_str(), self.keys[port].node.as_str()) {
                            match self.types[p] {
                                MsgTypeId::Template(t) => {
                                    if t == id {
                                        proof {
                                            assert(t0[p as int] is Template);
                                            assert(grp(p as int));
                                        }
                                        self.types.set(p, selected);
                                        proof {
                                            self.settled_by@ = self.settled_by@.update(p as int, Some(edge as int));
                                        }
                                    }
                                },
                                _ => {},
                            }
                        }
                        proof {
                            if grp(p as int) {
                                assert(t0[p as int] == MsgTypeId::Template(id));
                            }
                        }
                        p += 1;
                    }
                    proof {
                        assert forall|d: int, k: int| 0 <= d < edges_view(self.edges@).len() && 0 <= k < edges_view(self.edges@)[d].tx.len() implies #[trigger] edges_view(self.edges@)[d].tx[k] < t0.len() by {
                            assert(edges_view(self.edges@)[d] == self.edges@[d]@);
                        }
                        assert forall|d: int, k: int| 0 <= d < edges_view(self.edges@).len() && 0 <= k < edges_view(self.edges@)[d].rx.len() implies #[trigger] edges_view(self.edges@)[d].rx[k] < t0.len() by {
                            assert(edges_view(self.edges@)[d] == self.edges@[d]@);
                        }
                        lemma_done_typed_mono(t0, self.types@, self.state@, edges_view(self.edges@));
                        assert forall|q: int| 0 <= q < t0.len() implies #[trigger] grp(q) == (kv[q].node == kv[port as int].node && t0[q] == MsgTypeId::Template(id)) by {
                            if kv[q].node == kv[port as int].node && t0[q] == MsgTypeId::Template(id) {
                                assert(t0[q] == declared@[q]);
                            }
                        }
                        assert(self.types@ =~= settle_group(kv0, t0, port as int, id, selected));
                        assert forall|a: int, b: int|
                            #![trigger self.types@[a], self.types@[b]]
                            0 <= a < declared@.len() && 0 <= b < declared@.len() && a < kv.len() && b < kv.len() && declared@[a] is Template && declared@[b] == declared@[a]
                                && kv[a].node == kv[b].node implies self.types@[a] == self.types@[b] by {
                            assert(t0[a] == t0[b]);
                            if grp(a) && !grp(b) {
                                assert(grp(b));
                            }
                            if grp(b) && !grp(a) {
                                assert(grp(a));
                            }
                        }
                        assert forall|a: int, b: int|
                            #![trigger self.settled_by@[a], self.settled_by@[b]]
                            0 <= a < declared@.len() && 0 <= b < declared@.len() && a < kv.len() && b < kv.len() && a < self.settled_by@.len() && b < self.settled_by@.len() && declared@[a] is Template && declared@[b] == declared@[a]
                                && kv[a].node == kv[b].node implies self.settled_by@[a] == self.settled_by@[b] by {
                            assert(by0[a] == by0[b]);
                            if grp(a) && !grp(b) {
                                assert(grp(b));
                            }
                            if grp(b) && !grp(a) {
                                assert(grp(a));
                            }
                        }
                        let ghost ev = edges_view(self.edges@)[edge as int];
                        assert(ev == entry.edges@[edge as int]@) by {
                            assert(edges_view(entry.edges@)[edge as int] == entry.edges@[edge as int]@);
                        }
                        assert((ev.tx + ev.rx)[ei as int] == port);
                        assert((ev.tx + ev.rx).contains(port));
                        assert forall|q: int| 0 <= q < self.types@.len() && (#[trigger] self.settled_by@[q]) is Some implies 0 <= self.settled_by@[q]->0 < self.state@.len() && self.state@[self.settled_by@[q]->0] == EdgeState::Done(self.types@[q])
                            && self.settled_by@[q]->0 < edges_view(self.edges@).len() && touches(kv, declared@, edges_view(self.edges@)[self.settled_by@[q]->0], q) by {
                            assert(self.types@[q] == (if q < p && grp(q) { selected } else { t0[q] }));
                            if q < p && grp(q) {
                                assert(declared@[port as int] == declared@[q]);
                            }
                        }
                        assert forall|q: int| 0 <= q < entry.settled_by@.len() implies #[trigger] self.settled_by@[q] == entry.settled_by@[q] || (self.settled_by@[q] matches Some(d) && 0 <= d < entry.state@.len()
                            && entry.state@[d] is Pending) by {
                            assert(self.settled_by@[q] == (if q < p && grp(q) { Some(edge as int) } else { by0[q] }));
                        }
                        assert forall|q: int| 0 <= q < self.types@.len() && q < declared@.len() && declared@[q] is Template implies ((#[trigger] self.settled_by@[q]) is None <==> self.types@[q] is Template) by {
                            assert(self.types@[q] == (if q < p && grp(q) { selected } else { t0[q] }));
                        }
                        assert forall|q: int| 0 <= q < self.types@.len() && q < declared@.len() && !(declared@[q] is Template) implies (#[trigger] self.settled_by@[q]) is None by {
                            assert(self.settled_by@[q] == (if q < p && grp(q) { Some(edge as int) } else { by0[q] }));
                        }
                        assert forall|q: int| 0 <= q < self.types@.len() && (#[trigger] self.types@[q]) is Template implies q < declared@.len() && self.types@[q] == declared@[q] by {
                            assert(self.types@[q] == t0[q]);
                        }
                        assert(grp(port as int));
                        assert forall|j: int| 0 <= j < ei + 1 implies !(self.types@[#[trigger] endpoints@[j] as int] is Template) by {
                            let q = endpoints@[j] as int;
                            if self.types@[q] is Template {
                                assert(self.types@[q] == t0[q]);
                            }
                        }
                    }
                },
                _ => {},
            }
            ei += 1;
        }
        proof {
            let tx = entry.edges@[edge as int].tx@;
            let rx = entry.edges@[edge as int].rx@;
            assert forall|k: int| 0 <= k < tx.len() implies !(self.types@[#[trigger] tx[k] as int] is Template) by {
                assert(endpoints@[k] == tx[k]);
            }
            assert forall|k: int| 0 <= k < rx.len() implies !(self.types@[#[trigger] rx[k] as int] is Template) by {
                assert(endpoints@[tx.len() + k] == rx[k]);
            }
            let kv = keys_view(self.keys@);
            assert forall|k: int| 0 <= k < tx.len() && declared@[tx[k] as int] is Template implies #[trigger] end_settled(
                kv,
                declared@,
                entry.settled_by@,
                entry.state@,
                self.types@,
                self.settled_by@,
                edge as int,
                self.state@[edge as int]->Done_0,
                tx[k] as int,
            ) by {
                assert(!(self.types@[tx[k] as int] is Template));
                lemma_end_settled(kv, declared@, entry.settled_by@, entry.state@, self.types@, self.settled_by@, self.state@, edges_view(self.edges@), edge as int, selected, tx[k] as int);
            }
            assert forall|k: int| 0 <= k < rx.len() && declared@[rx[k] as int] is Template implies #[trigger] end_settled(
                kv,
                declared@,
                entry.settled_by@,
                entry.state@,
                self.types@,
                self.settled_by@,
                edge as int,
                self.state@[edge as int]->Done_0,
                rx[k] as int,
            ) by {
                assert(!(self.types@[rx[k] as int] is Template));
                lemma_end_settled(kv, declared@, entry.settled_by@, entry.state@, self.types@, self.settled_by@, self.state@, edges_view(self.edges@), edge as int, selected, rx[k] as int);
            }
        }
        Ok(())
    }
}

/// Once a prefix of the references fails, the whole list fails the same way.
proof fn lemma_resolve_all_err(g: GraphV, ks: Seq<PortKeyV>, rs: Seq<Seq<char>>, dir: Option<bool>, i: int)
    requires
        0 <= i <= rs.len(),
        resolve_all_spec(g, ks, rs.take(i), dir) is Err,
    ensures
        resolve_all_spec(g, ks, rs, dir) == resolve_all_spec(g, ks, rs.take(i), dir),
    decreases rs.len(),
{
    if rs.len() == i {
        assert(rs.take(i) =~= rs);
    } else {
        assert(rs.drop_last().take(i) =~= rs.take(i));
        lemma_resolve_all_err(g, ks, rs.drop_last(), dir, i);
    }
}

/// Once a prefix of the nodes fails, all nodes fail the same way.
proof fn lemma_graph_ports_err(regs: Seq<RegV>, ns: Seq<NodeV>, i: int)
    requires
        0 <= i <= ns.len(),
        graph_ports(regs, ns.take(i)) is Err,
    ensures
        graph_ports(regs, ns) == graph_ports(regs, ns.take(i)),
    decreases ns.len(),
{
    if ns.len() == i {
        assert(ns.take(i) =~= ns);
    } else {
        assert(ns.drop_last().take(i) =~= ns.take(i));
        lemma_graph_ports_err(regs, ns.drop_last(), i);
    }
}

/// Once a prefix of the boundary ports fails, all of them fail the same way.
proof fn lemma_boundary_err(g: GraphV, ks: Seq<PortKeyV>, bs: Seq<PortV>, input: bool, i: int)
    requires
        0 <= i <= bs.len(),
        boundary_edges(g, ks, bs.take(i), input) is Err,
    ensures
        boundary_edges(g, ks, bs, input) == boundary_edges(g, ks, bs.take(i), input),
    decreases bs.len(),
{
    if bs.len() == i {
        assert(bs.take(i) =~= bs);
    } else {
        assert(bs.drop_last().take(i) =~= bs.take(i));
        lemma_boundary_err(g, ks, bs.drop_last(), input, i);
    }
}

/// Once a prefix of the connections fails, all of them fail the same way.
proof fn lemma_connections_err(g: GraphV, ks: Seq<PortKeyV>, cs: Seq<ConnV>, i: int)
    requires
        0 <= i <= cs.len(),
        connection_edges(g, ks, cs.take(i)) is Err,
    ensures
        connection_edges(g, ks, cs) == connection_edges(g, ks, cs.take(i)),
    decreases cs.len(),
{
    if cs.len() == i {
        assert(cs.take(i) =~= cs);
    } else {
        assert(cs.drop_last().take(i) =~= cs.take(i));
        lemma_connections_err(g, ks, cs.drop_last(), i);
    }
}

/// The last position of a port key.
fn last_key(keys: &Vec<PortKey>, node: &str, port: &str, input: bool) -> (r: Option<usize>)
    ensures
        r matches Some(i) ==> i < keys@.len() && last_index(keys_view(keys@), key_is(node@, port@, input))
            == Some(i as int),
        r is None ==> last_index(keys_view(keys@), key_is(node@, port@, input)) is None,
{
    let ghost kv = keys_view(keys@);
    let mut i: usize = keys.len();
    while i > 0
        invariant
            i <= keys@.len(),
            kv == keys_view(keys@),
            forall|j: int| i <= j < keys@.len() ==> !key_is(node@, port@, input)(kv[j]),
        decreases i,
    {
        i -= 1;
        proof {
            assert(kv[i as int] == keys@[i as int]@);
        }
        if keys[i].input == input && str_eq(keys[i].node.as_str(), node) && str_eq(
            keys[i].name.as_str(),
            port,
        ) {
            proof {
                lemma_last_index_is(kv, key_is(node@, port@, input), i as int);
            }
            return Some(i);
        }
    }
    proof {
        lemma_last_index(kv, key_is(node@, port@, input));
    }
    None
}

/// The port that a reference stands for; see [`resolve_spec`].
fn resolve(g: &GraphConfig, keys: &Vec<PortKey>, r: &str, dir: Option<bool>) -> (res: Result<usize, Error>)
    ensures
        match resolve_spec(g@, keys_view(keys@), r@, dir) {
            Ok(i) => res == Ok::<usize, Error>(i),
            Err(e) => res matches Err(x) && x@ == e,
        },
        res matches Ok(i) ==> i < keys@.len(),
{
    let p = match PortRef::parse(r) {
        Ok(p) => p,
        Err(e) => {
            return Err(e);
        },
    };
    if crate::subgraph::node_position(&g.nodes, p.node).is_none() {
        return Err(Error::UnknownNode(owned(p.node)));
    }
    let found = match dir {
        Some(input) => last_key(keys, p.node, p.port, input),
        None => match last_key(keys, p.node, p.port, false) {
            Some(i) => Some(i),
            None => last_key(keys, p.node, p.port, true),
        },
    };
    match found {
        Some(i) => Ok(i),
        None => Err(Error::UnknownPort { node: owned(p.node), port: owned(p.port) }),
    }
}

/// The ports of a list of references; see [`resolve_all_spec`].
fn resolve_all(g: &GraphConfig, keys: &Vec<PortKey>, refs: &Vec<String>, dir: Option<bool>) -> (res: Result<
    Vec<usize>,
    Error,
>)
    ensures
        match resolve_all_spec(g@, keys_view(keys@), crate::text::strings_view(refs@), dir) {
            Ok(ix) => res matches Ok(v) && v@ == ix,
            Err(e) => res matches Err(x) && x@ == e,
        },
        res matches Ok(v) ==> forall|k: int| 0 <= k < v@.len() ==> #[trigger] v@[k] < keys@.len(),
{
    let ghost rs = crate::text::strings_view(refs@);
    let mut out: Vec<usize> = Vec::new();
    let mut i: usize = 0;
    proof {
        assert(rs.take(0) =~= Seq::<Seq<char>>::empty());
    }
    while i < refs.len()
        invariant
            rs == crate::text::strings_view(refs@),
            i <= refs@.len(),
            resolve_all_spec(g@, keys_view(keys@), rs.take(i as int), dir) == Ok::<Seq<usize>, ErrorV>(out@),
            forall|k: int| 0 <= k < out@.len() ==> #[trigger] out@[k] < keys@.len(),
        decreases refs@.len() - i,
    {
        proof {
            assert(rs.take(i + 1).drop_last() =~= rs.take(i as int));
            assert(rs.take(i + 1).last() == refs@[i as int]@);
        }
        match resolve(g, keys, refs[i].as_str(), dir) {
            Ok(k) => {
                out.push(k);
            },
            Err(e) => {
                proof {
                    lemma_resolve_all_err(g@, keys_view(keys@), rs, dir, i + 1);
                }
                return Err(e);
            },
        }
        i += 1;
    }
    proof {
        assert(rs.take(i as int) =~= rs);
    }
    Ok(out)
}

/// The ports and declared types of one node; see [`node_ports`].
fn add_node_ports(
    regs: &Vec<NodeRegistration>,
    node: &crate::config::NodeConfig,
    keys: &mut Vec<PortKey>,
    types: &mut Vec<MsgTypeId>,
) -> (res: Result<(), Error>)
    ensures
        match node_ports(regs_view(regs@), node@) {
            Ok((ks, ts)) => res is Ok && keys_view(final(keys)@) == keys_view(old(keys)@) + ks && final(types)@
                == old(types)@ + ts,
            Err(e) => res matches Err(x) && x@ == e,
        },
{
    let reg = match find(regs, node.ty.as_str()) {
        Some(r) => r,
        None => {
            return Err(Error::UnknownNodeType(node.ty.clone()));
        },
    };
    if reg.inputs.len() != reg.input_types.len() || reg.outputs.len() != reg.output_types.len() {
        return Err(Error::BadConnection(owned("port type metadata length does not match names")));
    }
    let ghost k0 = keys_view(keys@);
    let ghost t0 = types@;
    let ghost rv = reg@;
    let mut j: usize = 0;
    while j < reg.inputs.len()
        invariant
            rv == reg@,
            reg.inputs@.len() == reg.input_types@.len(),
            j <= reg.inputs@.len(),
            keys_view(keys@) == k0 + side_ports(node.name@, rv.inputs, true).take(j as int),
            types@ == t0 + rv.input_types.take(j as int),
        decreases reg.inputs@.len() - j,
    {
        let ghost kb = keys@;
        keys.push(PortKey { node: node.name.clone(), name: reg.inputs[j].clone(), input: true });
        types.push(reg.input_types[j]);
        proof {
            assert(rv.inputs[j as int] == reg.inputs@[j as int]@);
            assert(keys_view(keys@) =~= keys_view(kb).push(keys@[j + k0.len()]@)) by {
                assert(keys@ =~= kb.push(keys@.last()));
            }
        }
        j += 1;
        proof {
            assert(keys_view(keys@) =~= k0 + side_ports(node.name@, rv.inputs, true).take(j as int));
            assert(types@ =~= t0 + rv.input_types.take(j as int));
        }
    }
    proof {
        assert(side_ports(node.name@, rv.inputs, true).take(j as int) =~= side_ports(node.name@, rv.inputs, true));
        assert(rv.input_types.take(j as int) =~= rv.input_types);
    }
    let ghost k1 = keys_view(keys@);
    let ghost t1 = types@;
    let mut j: usize = 0;
    while j < reg.outputs.len()
        invariant
            rv == reg@,
            reg.outputs@.len() == reg.output_types@.len(),
            j <= reg.outputs@.len(),
            keys_view(keys@) == k1 + side_ports(node.name@, rv.outputs, false).take(j as int),
            types@ == t1 + rv.output_types.take(j as int),
        decreases reg.outputs@.len() - j,
    {
        let ghost kb = keys@;
        keys.push(PortKey { node: node.name.clone(), name: reg.outputs[j].clone(), input: false });
        types.push(reg.output_types[j]);
        proof {
            assert(rv.outputs[j as int] == reg.outputs@[j as int]@);
            assert(keys_view(keys@) =~= keys_view(kb).push(keys@[j + k1.len()]@)) by {
                assert(keys@ =~= kb.push(keys@.last()));
            }
        }
        j += 1;
        proof {
            assert(keys_view(keys@) =~= k1 + side_ports(node.name@, rv.outputs, false).take(j as int));
            assert(types@ =~= t1 + rv.output_types.take(j as int));
        }
    }
    proof {
        assert(side_ports(node.name@, rv.outputs, false).take(j as int) =~= side_ports(node.name@, rv.outputs, false));
        assert(rv.output_types.take(j as int) =~= rv.output_types);
        assert(keys_view(keys@) =~= k0 + (side_ports(node.name@, rv.inputs, true) + side_ports(node.name@, rv.outputs, false)));
        assert(types@ =~= t0 + (rv.input_types + rv.output_types));
    }
    Ok(())
}

/// The ports and declared types of all nodes; see [`graph_ports`].
fn build_ports(regs: &Vec<NodeRegistration>, g: &GraphConfig) -> (res: Result<(Vec<PortKey>, Vec<MsgTypeId>), Error>)
    ensures
        match graph_ports(regs_view(regs@), g@.nodes) {
            Ok((ks, ts)) => res matches Ok((k, t)) && keys_view(k@) == ks && t@ == ts,
            Err(e) => res matches Err(x) && x@ == e,
        },
{
    let ghost nv = g@.nodes;
    let mut keys: Vec<PortKey> = Vec::new();
    let mut types: Vec<MsgTypeId> = Vec::new();
    let mut i: usize = 0;
    proof {
        assert(nv.take(0) =~= Seq::<NodeV>::empty());
        assert(keys_view(keys@) =~= Seq::<PortKeyV>::empty());
    }
    while i < g.nodes.len()
        invariant
            nv == g@.nodes,
            nv == nodes_view(g.nodes@),
            i <= g.nodes@.len(),
            graph_ports(regs_view(regs@), nv.take(i as int)) == Ok::<(Seq<PortKeyV>, Seq<MsgTypeId>), ErrorV>(
                (keys_view(keys@), types@),
            ),
        decreases g.nodes@.len() - i,
    {
        proof {
            assert(nv.take(i + 1).drop_last() =~= nv.take(i as int));
            assert(nv.take(i + 1).last() == g.nodes@[i as int]@);
        }
        match add_node_ports(regs, &g.nodes[i], &mut keys, &mut types) {
            Ok(()) => {},
            Err(e) => {
                proof {
                    lemma_graph_ports_err(regs_view(regs@), nv, i + 1);
                }
                return Err(e);
            },
        }
        i += 1;
    }
    proof {
        assert(nv.take(i as int) =~= nv);
    }
    Ok((keys, types))
}

/// The edges of the graph's inputs or outputs; see [`boundary_edges`].
fn build_boundary_edges(
    g: &GraphConfig,
    keys: &Vec<PortKey>,
    bs: &Vec<crate::config::PortConfig>,
    input: bool,
    edges: &mut Vec<Edge>,
) -> (res: Result<(), Error>)
    ensures
        match boundary_edges(g@, keys_view(keys@), crate::config::ports_view(bs@), input) {
            Ok(es) => res is Ok && edges_view(final(edges)@) == edges_view(old(edges)@) + es,
            Err(e) => res matches Err(x) && x@ == e,
        },
        edges_in_bounds(edges_view(old(edges)@), keys@.len()) ==> edges_in_bounds(
            edges_view(final(edges)@),
            keys@.len(),
        ),
{
    let ghost bv = crate::config::ports_view(bs@);
    let ghost e0 = edges_view(edges@);
    let mut i: usize = 0;
    proof {
        assert(bv.take(0) =~= Seq::<PortV>::empty());
        assert(edges_view(edges@).skip(e0.len() as int) =~= Seq::<EdgeV>::empty());
        assert(edges_view(edges@).take(e0.len() as int) =~= e0);
    }
    while i < bs.len()
        invariant
            bv == crate::config::ports_view(bs@),
            i <= bs@.len(),
            boundary_edges(g@, keys_view(keys@), bv.take(i as int), input) == Ok::<Seq<EdgeV>, ErrorV>(
                edges_view(edges@).skip(e0.len() as int),
            ),
            edges_view(edges@).take(e0.len() as int) == e0,
            edges_view(edges@).len() >= e0.len(),
            edges_in_bounds(e0, keys@.len()) ==> edges_in_bounds(edges_view(edges@), keys@.len()),
            e0 == edges_view(old(edges)@),
        decreases bs@.len() - i,
    {
        proof {
            assert(bv.take(i + 1).drop_last() =~= bv.take(i as int));
            assert(bv.take(i + 1).last() == bs@[i as int]@);
        }
        if bs[i].ports.len() == 0 {
            proof {
                lemma_boundary_err(g@, keys_view(keys@), bv, input, i + 1);
            }
            if input {
                return Err(Error::BadConnection(owned("graph input has no target")));
            } else {
                return Err(Error::BadConnection(owned("graph output has no source")));
            }
        }
        let ix = match resolve_all(g, keys, &bs[i].ports, Some(input)) {
            Ok(ix) => ix,
            Err(e) => {
                proof {
                    lemma_boundary_err(g@, keys_view(keys@), bv, input, i + 1);
                }
                return Err(e);
            },
        };
        let ghost before = edges_view(edges@);
        if input {
            edges.push(Edge { tx: Vec::new(), rx: ix });
        } else {
            edges.push(Edge { tx: ix, rx: Vec::new() });
        }
        proof {
            assert(edges_view(edges@) =~= before.push(edges@.last()@));
            assert(edges@.last()@.tx.len() == 0 || edges@.last()@.tx == ix@);
            assert(edges_view(edges@).skip(e0.len() as int) =~= before.skip(e0.len() as int).push(edges@.last()@));
            assert(edges_view(edges@).take(e0.len() as int) =~= before.take(e0.len() as int));
        }
        i += 1;
    }
    proof {
        assert(bv.take(i as int) =~= bv);
        assert(edges_view(edges@) =~= e0 + edges_view(edges@).skip(e0.len() as int));
    }
    Ok(())
}

/// The edges of the graph's internal connections; see [`connection_edges`].
fn build_connection_edges(
    g: &GraphConfig,
    keys: &Vec<PortKey>,
    edges: &mut Vec<Edge>,
) -> (res: Result<(), Error>)
    ensures
        match connection_edges(g@, keys_view(keys@), g@.connections) {
            Ok(es) => res is Ok && edges_view(final(edges)@) == edges_view(old(edges)@) + es,
            Err(e) => res matches Err(x) && x@ == e,
        },
        edges_in_bounds(edges_view(old(edges)@), keys@.len()) ==> edges_in_bounds(
            edges_view(final(edges)@),
            keys@.len(),
        ),
{
    let ghost cv = g@.connections;
    let ghost kv = keys_view(keys@);
    let ghost e0 = edges_view(edges@);
    let mut i: usize = 0;
    proof {
        assert(cv.take(0) =~= Seq::<ConnV>::empty());
        assert(edges_view(edges@).skip(e0.len() as int) =~= Seq::<EdgeV>::empty());
        assert(edges_view(edges@).take(e0.len() as int) =~= e0);
    }
    while i < g.connections.len()
        invariant
            cv == g@.connections,
            cv == crate::config::conns_view(g.connections@),
            kv == keys_view(keys@),
            i <= g.connections@.len(),
            connection_edges(g@, kv, cv.take(i as int)) == Ok::<Seq<EdgeV>, ErrorV>(
                edges_view(edges@).skip(e0.len() as int),
            ),
            edges_view(edges@).take(e0.len() as int) == e0,
            edges_view(edges@).len() >= e0.len(),
            edges_in_bounds(e0, keys@.len()) ==> edges_in_bounds(edges_view(edges@), keys@.len()),
            e0 == edges_view(old(edges)@),
        decreases g.connections@.len() - i,
    {
        proof {
            assert(cv.take(i + 1).drop_last() =~= cv.take(i as int));
            assert(cv.take(i + 1).last() == g.connections@[i as int]@);
        }
        let ix = match resolve_all(g, keys, &g.connections[i].ports, None) {
            Ok(ix) => ix,
            Err(e) => {
                proof {
                    lemma_connections_err(g@, kv, cv, i + 1);
                }
                return Err(e);
            },
        };
        let mut tx: Vec<usize> = Vec::new();
        let mut rx: Vec<usize> = Vec::new();
        let mut k: usize = 0;
        while k < ix.len()
            invariant
                kv == keys_view(keys@),
                forall|m: int| 0 <= m < ix@.len() ==> #[trigger] ix@[m] < keys@.len(),
                k <= ix@.len(),
                tx@ == ix@.take(k as int).filter(is_output_at(kv)),
                rx@ == ix@.take(k as int).filter(is_input_at(kv)),
                forall|m: int| 0 <= m < tx@.len() ==> #[trigger] tx@[m] < keys@.len(),
                forall|m: int| 0 <= m < rx@.len() ==> #[trigger] rx@[m] < keys@.len(),
            decreases ix@.len() - k,
        {
            let q = ix[k];
            proof {
                assert(ix@.take(k + 1).drop_last() =~= ix@.take(k as int));
                assert(ix@.take(k + 1).last() == q);
                assert(kv[q as int] == keys@[q as int]@);
            }
            if keys[q].input {
                rx.push(q);
                proof {
                    assert(is_input_at(kv)(q));
                    assert(!is_output_at(kv)(q));
                }
            } else {
                tx.push(q);
                proof {
                    assert(!is_input_at(kv)(q));
                    assert(is_output_at(kv)(q));
                }
            }
            proof {
                reveal(Seq::filter);
                let t1 = ix@.take(k + 1);
                assert(t1.filter(is_output_at(kv)) == (if is_output_at(kv)(t1.last()) {
                    t1.drop_last().filter(is_output_at(kv)).push(t1.last())
                } else {
                    t1.drop_last().filter(is_output_at(kv))
                }));
                assert(t1.filter(is_input_at(kv)) == (if is_input_at(kv)(t1.last()) {
                    t1.drop_last().filter(is_input_at(kv)).push(t1.last())
                } else {
                    t1.drop_last().filter(is_input_at(kv))
                }));
            }
            k += 1;
        }
        proof {
            assert(ix@.take(k as int) =~= ix@);
        }
        if tx.len() == 0 || rx.len() == 0 {
            proof {
                lemma_connections_err(g@, kv, cv, i + 1);
            }
            return Err(Error::BadConnection(owned("connection needs sender and receiver")));
        }
        let ghost before = edges_view(edges@);
        edges.push(Edge { tx, rx });
        proof {
            assert(edges_view(edges@) =~= before.push(edges@.last()@));
            assert(edges_view(edges@).skip(e0.len() as int) =~= before.skip(e0.len() as int).push(edges@.last()@));
            assert(edges_view(edges@).take(e0.len() as int) =~= before.take(e0.len() as int));
        }
        i += 1;
    }
    proof {
        assert(cv.take(i as int) =~= cv);
        assert(edges_view(edges@) =~= e0 + edges_view(edges@).skip(e0.len() as int));
    }
    Ok(())
}

/// All edges of a graph; see [`graph_edges`].
fn build_edges(g: &GraphConfig, keys: &Vec<PortKey>) -> (res: Result<Vec<Edge>, Error>)
    ensures
        match graph_edges(g@, keys_view(keys@)) {
            Ok(es) => res matches Ok(v) && edges_view(v@) == es,
            Err(e) => res matches Err(x) && x@ == e,
        },
        res matches Ok(v) ==> edges_in_bounds(edges_view(v@), keys@.len()),
{
    let mut edges: Vec<Edge> = Vec::new();
    proof {
        assert(edges_view(edges@) =~= Seq::<EdgeV>::empty());
    }
    match build_boundary_edges(g, keys, &g.inputs, true, &mut edges) {
        Ok(()) => {},
        Err(e) => {
            return Err(e);
        },
    }
    match build_boundary_edges(g, keys, &g.outputs, false, &mut edges) {
        Ok(()) => {},
        Err(e) => {
            return Err(e);
        },
    }
    match build_connection_edges(g, keys, &mut edges) {
        Ok(()) => {},
        Err(e) => {
            return Err(e);
        },
    }
    Ok(edges)
}

/// The result of inference: the type of every edge (graph inputs, then
/// graph outputs, then internal connections, each in configuration order),
/// and the final type of every port.
pub struct InferredGraph {
    pub connections: Vec<MsgTypeId>,
    pub keys: Vec<PortKey>,
    pub types: Vec<MsgTypeId>,
}

impl InferredGraph {
    /// Whether a port of that key exists.
    pub open spec fn has_port(&self, node: Seq<char>, port: Seq<char>, input: bool) -> bool {
        last_index(keys_view(self.keys@), key_is(node, port, input)) is Some
    }

    /// The final type of the port of that key (the last one, when a key repeats).
    pub open spec fn port_type_spec(&self, node: Seq<char>, port: Seq<char>, input: bool) -> MsgTypeId {
        self.types@[last_index(keys_view(self.keys@), key_is(node, port, input))->0]
    }

    /// The final type of the port of that key, if it exists.
    pub fn find_port(&self, node: &str, port: &str, input: bool) -> (r: Option<MsgTypeId>)
        requires
            self.keys@.len() == self.types@.len(),
        ensures
            r is Some == self.has_port(node@, port@, input),
            r matches Some(t) ==> t == self.port_type_spec(node@, port@, input),
    {
        match last_key(&self.keys, node, port, input) {
            Some(i) => Some(self.types[i]),
            None => None,
        }
    }

    /// The final type of the port of that key, which must exist.
    pub fn port_type(&self, node: &str, port: &str, input: bool) -> (r: MsgTypeId)
        requires
            self.keys@.len() == self.types@.len(),
            self.has_port(node@, port@, input),
        ensures
            r == self.port_type_spec(node@, port@, input),
    {
        let i = last_key(&self.keys, node, port, input).unwrap();
        self.types[i]
    }
}

/// Infers the message type of every edge and port of one flat graph.
///
/// Refused exactly as [`graph_model`] says (unregistered node type, port
/// metadata of unequal length, bad or unknown references, an input or
/// output wired to nothing, a connection without sender or receiver).
/// Otherwise the result is exactly [`inference`]: every edge is visited in
/// order as [`visit_spec`] says, trying the edges related to its template
/// ends first; an edge whose ends are all
/// template parameters is taken as any payload, and any other failure to
/// choose a type refuses the graph: a refusal is a mismatch, where under a
/// typing the declarations allow ([`consistent_typing`]) the ends of some
/// edge have no common type.  Settled types are never template parameters,
/// and a port declared with a concrete type keeps it.  A port declared
/// with a template parameter that got a type got the type chosen for an
/// edge with an end among the ports of its node declared with that
/// parameter ([`touches`]), and those ports all have one type.  An edge
/// none of whose ends is declared with a template parameter is settled to
/// its own choice ([`edge_choice`]), and the graph is refused when that
/// choice fails.  When no port is declared with a template parameter, the
/// result is exactly each edge's own choice ([`plain_inference`]); when
/// every end of every edge is, inference succeeds with every edge taken as
/// any payload.
pub fn infer<F>(g: &GraphConfig, regs: &Vec<NodeRegistration>, table: &ConversionTable<F>) -> (r: Result<
    InferredGraph,
    Error,
>)
    requires
        table.well_formed(),
    ensures
        match graph_model(regs_view(regs@), g@) {
            Err(e) => r matches Err(x) && x@ == e,
            Ok((ks, ts, es)) => {
                &&& r matches Ok(ig) ==> {
                    &&& ig.connections@.len() == es.len()
                    &&& keys_view(ig.keys@) == ks
                    &&& ig.types@.len() == ts.len()
                    &&& forall|i: int| 0 <= i < es.len() ==> !(#[trigger] ig.connections@[i] is Template)
                    &&& forall|p: int| 0 <= p < ts.len() && !(ts[p] is Template) ==> #[trigger] ig.types@[p] == ts[p]
                    &&& tied(ks, ts, ig.types@)
                    &&& unsettled_declared(ts, ig.types@)
                    &&& forall|i: int| 0 <= i < es.len() && !has_concrete_end(ig.types@, es[i]) ==> #[trigger] ig.connections@[i]
                        == MsgTypeId::Any
                    &&& forall|i: int|
                        0 <= i < es.len() && edge_guess(pairs_of(table@), ig.types@, es[i]) == Err::<MsgTypeId, ErrorV>(
                            ErrorV::TemplateInferFault,
                        ) ==> #[trigger] ig.connections@[i] == MsgTypeId::Any
                    &&& forall|q: int|
                        0 <= q < ts.len() && ts[q] is Template && !(#[trigger] ig.types@[q] is Template) ==> exists|d: int|
                            0 <= d < es.len() && ig.connections@[d] == ig.types@[q] && #[trigger] touches(ks, ts, es[d], q)
                    &&& forall|i: int|
                        0 <= i < es.len() && edge_plain(ts, es[i]) ==> edge_choice(pairs_of(table@), ts, es[i])
                            == Ok::<MsgTypeId, ErrorV>(#[trigger] ig.connections@[i])
                }
                &&& (exists|i: int| 0 <= i < es.len() && edge_plain(ts, es[i]) && #[trigger] edge_choice(pairs_of(table@), ts, es[i]) is Err)
                    ==> r is Err
                &&& match inference(pairs_of(table@), ks, ts, es) {
                    Ok((cs, tys)) => r matches Ok(ig) && ig.connections@ == cs && ig.types@ == tys,
                    Err(x) => r matches Err(y) && y@ == x,
                }
                &&& r matches Err(x) ==> x@ is ChannelTypeMismatch
                &&& r matches Err(x) ==> exists|tys: Seq<MsgTypeId>, i: int|
                    consistent_typing(ks, ts, tys) && 0 <= i < es.len() && #[trigger] edge_guess(pairs_of(table@), tys, es[i])
                        == Err::<MsgTypeId, ErrorV>(x@)
                &&& all_template_edges(ts, es) ==> (r matches Ok(ig) && forall|i: int| 0 <= i < es.len() ==> #[trigger] ig.connections@[i]
                    == MsgTypeId::Any)
                &&& no_templates(ts) ==> match plain_inference(pairs_of(table@), ts, es) {
                    Ok(cs) => r matches Ok(ig) && ig.connections@ == cs && ig.types@ == ts,
                    Err(e) => r matches Err(x) && x@ == e,
                }
            },
        },
{
    let (keys, types) = match build_ports(regs, g) {
        Ok(p) => p,
        Err(e) => {
            return Err(e);
        },
    };
    let edges = match build_edges(g, &keys) {
        Ok(es) => es,
        Err(e) => {
            return Err(e);
        },
    };
    let ghost ks = keys_view(keys@);
    let ghost ts = types@;
    let ghost es = edges_view(edges@);
    proof {
        lemma_graph_ports_len(regs_view(regs@), g@.nodes);
        assert(ks.len() == keys@.len());
        assert(graph_model(regs_view(regs@), g@) == Ok::<(Seq<PortKeyV>, Seq<MsgTypeId>, Seq<EdgeV>), ErrorV>(
            (ks, ts, es),
        ));
    }
    let n = edges.len();
    let mut state: Vec<EdgeState> = Vec::new();
    let mut k: usize = 0;
    while k < n
        invariant
            k <= n,
            state@.len() == k,
            forall|j: int| 0 <= j < k ==> (#[trigger] state@[j]) is Pending,
        decreases n - k,
    {
        state.push(EdgeState::Pending);
        k += 1;
    }
    proof {
        assert(state@ =~= Seq::new(es.len(), |i: int| EdgeState::Pending));
    }
    let mut inf = Infer { keys, types, edges, state, settled_by: Ghost(Seq::new(ts.len(), |q: int| None)) };
    proof {
        assert forall|e: int, k: int| 0 <= e < inf.edges@.len() && 0 <= k < inf.edges@[e].tx@.len() implies #[trigger] inf.edges@[e].tx@[k]
            < inf.types@.len() by {
            assert(es[e] == inf.edges@[e]@);
            assert(es[e].tx[k] < ks.len());
        }
        assert forall|e: int, k: int| 0 <= e < inf.edges@.len() && 0 <= k < inf.edges@[e].rx@.len() implies #[trigger] inf.edges@[e].rx@[k]
            < inf.types@.len() by {
            assert(es[e] == inf.edges@[e]@);
            assert(es[e].rx[k] < ks.len());
        }
        assert(es.take(0) =~= Seq::<EdgeV>::empty());
        assert(Seq::new(0, |j: int| inf.state@[j]->Done_0) =~= Seq::<MsgTypeId>::empty());
    }
    let mut e: usize = 0;
    while e < n
        invariant
            table.well_formed(),
            graph_model(regs_view(regs@), g@) == Ok::<(Seq<PortKeyV>, Seq<MsgTypeId>, Seq<EdgeV>), ErrorV>(
                (ks, ts, es),
            ),
            n == es.len(),
            inf.wf(),
            keys_view(inf.keys@) == ks,
            edges_view(inf.edges@) == es,
            inf.types@.len() == ts.len(),
            e <= n,
            forall|j: int| 0 <= j < e ==> (#[trigger] inf.state@[j]) is Done,
            forall|j: int| 0 <= j < n ==> !(#[trigger] inf.state@[j] is Visiting),
            forall|j: int| 0 <= j < n ==> ok_state(#[trigger] inf.state@[j]),
            forall|p: int| 0 <= p < ts.len() && !(ts[p] is Template) ==> #[trigger] inf.types@[p] == ts[p],
            forall|p: int| 0 <= p < ts.len() && (#[trigger] inf.types@[p]) is Template ==> inf.types@[p] == ts[p],
            agrees(ts, inf.types@),
            tied(ks, ts, inf.types@),
            unsettled_declared(ts, inf.types@),
            done_typed(inf.types@, inf.state@, es),
            provenance(ks, ts, inf.types@, inf.settled_by@, inf.state@, es),
            all_template_edges(ts, es) ==> inf.types@ == ts,
            infer_from(pairs_of(table@), ks, es, ts, Seq::new(es.len(), |i: int| EdgeState::Pending), 0) == infer_from(
                pairs_of(table@),
                ks,
                es,
                inf.types@,
                inf.state@,
                e as int,
            ),
            plain_settled(pairs_of(table@), ts, es, inf.state@),
            no_templates(ts) ==> {
                &&& inf.types@ == ts
                &&& forall|j: int| e <= j < n ==> (#[trigger] inf.state@[j]) is Pending
                &&& plain_inference(pairs_of(table@), ts, es.take(e as int)) == Ok::<Seq<MsgTypeId>, ErrorV>(
                    Seq::new(e as nat, |j: int| inf.state@[j]->Done_0),
                )
            },
        decreases n - e,
    {
        let ghost before = inf;
        proof {
            assert(es.take(e + 1).drop_last() =~= es.take(e as int));
            assert(es.take(e + 1).last() == es[e as int]);
            assert(es[e as int] == inf.edges@[e as int]@);
        }
        match inf.visit(e, table, Ghost(ts)) {
            Ok(()) => {
                proof {
                    if before.state@[e as int] is Pending {
                    } else {
                        assert(inf.state@[e as int] == before.state@[e as int]);
                    }
                }
            },
            Err(err) => {
                match err {
                    Error::TemplateInferFault => {
                        inf.state.set(e, EdgeState::Done(MsgTypeId::Any));
                        proof {
                            assert forall|d: int|
                                0 <= d < inf.state@.len() && d < es.len() && edge_plain(ts, es[d]) && (#[trigger] inf.state@[d]) is Done implies edge_choice(
                                pairs_of(table@),
                                ts,
                                es[d],
                            ) == Ok::<MsgTypeId, ErrorV>(inf.state@[d]->Done_0) by {
                                if d == e {
                                    assert(es[e as int] == before.edges@[e as int]@);
                                    assert(edge_guess(pairs_of(table@), ts, es[e as int]) == Err::<MsgTypeId, ErrorV>(ErrorV::TemplateInferFault));
                                }
                            }
                        }
                    },
                    _ => {
                        proof {
                            assert(!(err@ is TemplateInferFault));
                            assert(err@ is ChannelTypeMismatch);
                            assert(edges_view(inf.edges@)[e as int] == inf.edges@[e as int]@);
                            assert(consistent_typing(ks, ts, inf.types@));
                            assert(edge_guess(pairs_of(table@), inf.types@, es[e as int]) == Err::<MsgTypeId, ErrorV>(err@));
                            assert(!all_template_edges(ts, es));
                            if no_templates(ts) {
                                assert(before.types@ == ts);
                                assert(before.edges@[e as int]@ == es[e as int]);
                                assert(plain_inference(pairs_of(table@), ts, es.take(e as int + 1)) is Err);
                                lemma_plain_err(pairs_of(table@), ts, es, e as int + 1);
                                assert(plain_inference(pairs_of(table@), ts, es) == Err::<Seq<MsgTypeId>, ErrorV>(err@));
                            }
                        }
                        return Err(err);
                    },
                }
            },
        }
        proof {
            if no_templates(ts) {
                assert(Seq::new((e + 1) as nat, |j: int| inf.state@[j]->Done_0) =~= Seq::new(
                    e as nat,
                    |j: int| before.state@[j]->Done_0,
                ).push(inf.state@[e as int]->Done_0));
            }
        }
        e += 1;
    }
    let mut connections: Vec<MsgTypeId> = Vec::new();
    let mut k: usize = 0;
    while k < n
        invariant
            n == inf.state@.len(),
            k <= n,
            forall|j: int| 0 <= j < n ==> (#[trigger] inf.state@[j]) is Done,
            forall|j: int| 0 <= j < n ==> ok_state(#[trigger] inf.state@[j]),
            connections@ == Seq::new(k as nat, |j: int| inf.state@[j]->Done_0),
        decreases n - k,
    {
        match inf.state[k] {
            EdgeState::Done(t) => {
                connections.push(t);
            },
            _ => {},
        }
        k += 1;
        proof {
            assert(connections@ =~= Seq::new(k as nat, |j: int| inf.state@[j]->Done_0));
        }
    }
    proof {
        assert(es.take(n as int) =~= es);
        assert forall|i: int| 0 <= i < es.len() && edge_plain(ts, es[i]) implies edge_choice(pairs_of(table@), ts, es[i])
            == Ok::<MsgTypeId, ErrorV>(#[trigger] connections@[i]) by {
            assert(inf.state@[i] is Done);
        }
        if exists|i: int| 0 <= i < es.len() && edge_plain(ts, es[i]) && #[trigger] edge_choice(pairs_of(table@), ts, es[i]) is Err {
            let i = choose|i: int| 0 <= i < es.len() && edge_plain(ts, es[i]) && #[trigger] edge_choice(pairs_of(table@), ts, es[i]) is Err;
            assert(edge_choice(pairs_of(table@), ts, es[i]) == Ok::<MsgTypeId, ErrorV>(connections@[i]));
        }
        assert forall|i: int| 0 <= i < es.len() implies !(#[trigger] connections@[i] is Template) by {
            assert(ok_state(inf.state@[i]));
        }
        assert forall|i: int| 0 <= i < es.len() && !has_concrete_end(inf.types@, es[i]) implies #[trigger] connections@[i]
            == MsgTypeId::Any by {
            assert(inf.state@[i] is Done);
        }
        assert forall|i: int|
            0 <= i < es.len() && edge_guess(pairs_of(table@), inf.types@, es[i]) == Err::<MsgTypeId, ErrorV>(
                ErrorV::TemplateInferFault,
            ) implies #[trigger] connections@[i] == MsgTypeId::Any by {
            lemma_template_fault_ends(pairs_of(table@), inf.types@, es[i]);
            assert(inf.state@[i] is Done);
        }
        assert forall|q: int| 0 <= q < ts.len() && ts[q] is Template && !(#[trigger] inf.types@[q] is Template) implies exists|d: int|
            0 <= d < es.len() && connections@[d] == inf.types@[q] && #[trigger] touches(ks, ts, es[d], q) by {
            let d = inf.settled_by@[q]->0;
            assert(inf.settled_by@[q] is Some);
            assert(inf.state@[d] == EdgeState::Done(inf.types@[q]));
            assert(connections@[d] == inf.types@[q]);
            assert(touches(ks, ts, es[d], q));
        }
        if all_template_edges(ts, es) {
            assert forall|i: int| 0 <= i < es.len() implies !has_concrete_end(inf.types@, #[trigger] es[i]) by {
                let e0 = es[i];
                if exists|k: int| 0 <= k < e0.tx.len() && !(#[trigger] inf.types@[e0.tx[k] as int] is Template) {
                    let k = choose|k: int| 0 <= k < e0.tx.len() && !(#[trigger] inf.types@[e0.tx[k] as int] is Template);
                    assert(ts[es[i].tx[k] as int] is Template);
                }
                if exists|k: int| 0 <= k < e0.rx.len() && !(#[trigger] inf.types@[e0.rx[k] as int] is Template) {
                    let k = choose|k: int| 0 <= k < e0.rx.len() && !(#[trigger] inf.types@[e0.rx[k] as int] is Template);
                    assert(ts[es[i].rx[k] as int] is Template);
                }
            }
        }
    }
    Ok(InferredGraph { connections, keys: inf.keys, types: inf.types })
}

/// A graph model has as many port keys as port types.
pub proof fn lemma_keys_types_len(regs: Seq<RegV>, g: GraphV)
    ensures
        graph_model(regs, g) matches Ok((ks, ts, es)) ==> ks.len() == ts.len(),
{
    lemma_graph_ports_len(regs, g.nodes);
}

/// The port list and the type list of a graph have the same length.
proof fn lemma_graph_ports_len(regs: Seq<RegV>, ns: Seq<NodeV>)
    ensures
        graph_ports(regs, ns) matches Ok((ks, ts)) ==> ks.len() == ts.len(),
    decreases ns.len(),
{
    if ns.len() > 0 {
        lemma_graph_ports_len(regs, ns.drop_last());
    }
}

/// Once a prefix of the edges fails, plain inference fails the same way.
proof fn lemma_plain_err(conv: Map<(MsgTypeId, MsgTypeId), ()>, ts: Seq<MsgTypeId>, es: Seq<EdgeV>, i: int)
    requires
        0 <= i <= es.len(),
        plain_inference(conv, ts, es.take(i)) is Err,
    ensures
        plain_inference(conv, ts, es) == plain_inference(conv, ts, es.take(i)),
    decreases es.len(),
{
    if es.len() == i {
        assert(es.take(i) =~= es);
    } else {
        assert(es.drop_last().take(i) =~= es.take(i));
        lemma_plain_err(conv, ts, es.drop_last(), i);
    }
}

/// Whether every edge names ports below `n`.
pub open spec fn edges_in_bounds(es: Seq<EdgeV>, n: nat) -> bool {
    &&& forall|e: int, k: int| 0 <= e < es.len() && 0 <= k < es[e].tx.len() ==> #[trigger] es[e].tx[k] < n
    &&& forall|e: int, k: int| 0 <= e < es.len() && 0 <= k < es[e].rx.len() ==> #[trigger] es[e].rx[k] < n
}

/// Whether `port` occurs in `ix`.
fn contains_index(ix: &Vec<usize>, port: usize) -> (r: bool)
    ensures
        r == ix@.contains(port),
{
    let mut k: usize = 0;
    while k < ix.len()
        invariant
            k <= ix@.len(),
            forall|j: int| 0 <= j < k ==> ix@[j] != port,
        decreases ix@.len() - k,
    {
        if ix[k] == port {
            return true;
        }
        k += 1;
    }
    false
}

} // verus!
