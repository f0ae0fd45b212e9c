//! The wiring plan of one flat graph: which channels exist and which port
//! of which node each channel end is attached to.
//!
//! Every graph input, graph output and internal connection is one channel,
//! in that order, with the capacity written in the configuration and the
//! type chosen by inference.  The receiving end of a graph input goes to the
//! input ports it names, the sending end of a graph output to the output
//! ports it names, and a connection's references are sorted into senders
//! (output ports of their node type) and receivers (input ports).  A port
//! that is neither a list nor keyed by tag takes at most one channel end.
//! Each node then receives, for every declared port that is not created at
//! run time, the ends attached to it in attachment order; an unwired single
//! port gets one unconnected end.  Ends attached to a port the node type
//! does not declare refuse the graph.
use crate::config::{port_ref_spec, ConnConfig, ConnV, GraphConfig, GraphV, NodeV, PortConfig, PortV, nodes_view, ports_view, conns_view};
use crate::conversion::{pairs_of, ConversionTable};
use crate::envelope::str2addr_spec;
use crate::error::{Error, ErrorV};
use crate::interlayer::{port_parse_spec, MsgTypeId, Port};
use crate::registry::{find_index, find_spec, flag_of, flag_present, is_name, position_of, regs_view, NodeRegistration, RegV};
use crate::search::{first_index, lemma_first_index};
use crate::text::{concat3, owned, push_decimal, str_eq, strings_view};
use crate::type_infer::{
    all_template_edges, consistent_typing, edge_choice, edge_guess, edge_plain, graph_model, infer, inference, keys_view, no_templates,
    plain_inference, InferredGraph,
};
use crate::graph::debug_string_list;
use vstd::prelude::*;

verus! {

broadcast use vstd::seq_lib::group_seq_properties;

/// Names the text that std's `Debug` formatting gives for a string with
/// these characters (quoted, with escapes).
pub uninterp spec fn debug_str(s: Seq<char>) -> Seq<char>;

/// std's `Debug` formatting of a string (`format!("{:?}", s)`).
#[verifier::external_body]
pub(crate) fn debug_text(s: &str) -> (r: String)
    ensures
        r@ == debug_str(s@),
{
    format!("{:?}", s)
}

/// One channel of the plan.
#[derive(Clone, Copy)]
pub struct ChannelPlan {
    pub cap: usize,
    pub ty: MsgTypeId,
}

/// One channel end as a node receives it: the channel (`None`: an
/// unconnected end), the type the port declares for it, and the tag of the
/// reference that attached it.
#[derive(Clone, Copy)]
pub struct Endpoint {
    pub channel: Option<usize>,
    pub port_type: MsgTypeId,
    pub tag: Option<u64>,
}

/// The ends a node receives for one of its ports.
pub struct PortGroup {
    pub port: String,
    pub endpoints: Vec<Endpoint>,
}

/// What one node receives: its name, type, registration and port groups in
/// the registration's port order.
pub struct NodePlan {
    pub name: String,
    pub ty: String,
    pub reg: usize,
    pub inputs: Vec<PortGroup>,
    pub outputs: Vec<PortGroup>,
}

/// The plan of a graph.
pub struct GraphPlan {
    pub channels: Vec<ChannelPlan>,
    /// each graph input's name and channel, in configuration order
    pub graph_inputs: Vec<(String, usize)>,
    /// each graph output's name and channel, in configuration order
    pub graph_outputs: Vec<(String, usize)>,
    pub nodes: Vec<NodePlan>,
}

/// Ends attached to one port of one node while channels are laid out.
struct Slot {
    node: String,
    port: String,
    input: bool,
    endpoints: Vec<Endpoint>,
}

/// The references of the `c`-th channel: graph inputs, then graph outputs, then connections.
pub open spec fn entry_refs(g: GraphV, c: int) -> Seq<Seq<char>> {
    let ni = g.inputs.len() as int;
    let no = g.outputs.len() as int;
    if c < ni {
        g.inputs[c].ports
    } else if c < ni + no {
        g.outputs[c - ni].ports
    } else {
        g.connections[c - ni - no].ports
    }
}

/// The capacity of the `c`-th channel.
pub open spec fn entry_cap(g: GraphV, c: int) -> usize {
    let ni = g.inputs.len() as int;
    let no = g.outputs.len() as int;
    if c < ni {
        g.inputs[c].cap
    } else if c < ni + no {
        g.outputs[c - ni].cap
    } else {
        g.connections[c - ni - no].cap
    }
}

/// How many channels a graph has.
pub open spec fn channel_count(g: GraphV) -> nat {
    g.inputs.len() + g.outputs.len() + g.connections.len()
}

/// The address of a tag text, if any.
pub open spec fn tag_of(t: Option<Seq<char>>) -> Option<u64> {
    match t {
        Some(x) => Some(str2addr_spec(x)),
        None => None,
    }
}

/// An end attached to `port` of `node` came from a reference of its channel
/// naming that node and port, with that tag.
pub open spec fn sound_endpoint(g: GraphV, node: Seq<char>, port: Seq<char>, e: Endpoint) -> bool {
    match e.channel {
        Some(c) => channel_names(g, c as int, node, port, e.tag),
        None => true,
    }
}

/// Some reference of channel `c` names this node and port with this tag.
pub open spec fn channel_names(g: GraphV, c: int, node: Seq<char>, port: Seq<char>, tag: Option<u64>) -> bool {
    exists|k: int| 0 <= k < entry_refs(g, c).len() && ref_names(#[trigger] entry_refs(g, c)[k], node, port, tag)
}

/// An end on channel `c` is sound when the `k`-th reference of the channel names its port.
proof fn lemma_sound_endpoint(g: GraphV, node: Seq<char>, port: Seq<char>, e: Endpoint, c: usize, k: int)
    requires
        e.channel == Some(c),
        0 <= k < entry_refs(g, c as int).len(),
        ref_names(entry_refs(g, c as int)[k], node, port, e.tag),
    ensures
        sound_endpoint(g, node, port, e),
{
}

/// Whether a reference names this node and port with this tag.
pub open spec fn ref_names(r: Seq<char>, node: Seq<char>, port: Seq<char>, tag: Option<u64>) -> bool {
    match port_parse_spec(r) {
        Some((n, p, t)) => n == node && p == port && tag == tag_of(t),
        None => false,
    }
}

/// Every registration has a list flag for each of its ports.
pub open spec fn regs_wf(regs: Seq<RegV>) -> bool {
    forall|i: int|
        0 <= i < regs.len() ==> (#[trigger] regs[i]).input_array.len() >= regs[i].inputs.len()
            && regs[i].output_array.len() >= regs[i].outputs.len()
}

/// The registration of the first node named `node`, when the node exists
/// and its type is registered.
pub open spec fn node_reg_spec(g: GraphV, regs: Seq<RegV>, node: Seq<char>) -> Option<int> {
    match first_index(g.nodes, crate::subgraph::node_named(node)) {
        Some(i) => find_spec(regs, g.nodes[i].ty),
        None => None,
    }
}

/// Whether a port takes several ends: a list port or a port keyed by tag.
pub open spec fn takes_many(r: RegV, port: Seq<char>, input: bool) -> bool {
    if input {
        flag_of(r.inputs, r.input_array, port) || flag_of(r.inputs, r.input_dict, port)
    } else {
        flag_of(r.outputs, r.output_array, port) || flag_of(r.outputs, r.output_dict, port)
    }
}

/// A port of the first node of its name that takes a single end has at most one.
spec fn slots_single(g: GraphV, regs: Seq<RegV>, slots: Seq<Slot>) -> bool {
    forall|s: int|
        0 <= s < slots.len() ==> match node_reg_spec(g, regs, (#[trigger] slots[s]).node@) {
            Some(k) => !takes_many(regs[k], slots[s].port@, slots[s].input) ==> slots[s].endpoints@.len() <= 1,
            None => true,
        }
}

/// Every group of a port that takes a single end holds exactly one end.
pub open spec fn single_ends(r: RegV, gs: Seq<PortGroup>, input: bool) -> bool {
    forall|j: int| 0 <= j < gs.len() && !takes_many(r, (#[trigger] gs[j]).port@, input) ==> gs[j].endpoints@.len() == 1
}

/// The side of the port that a reference of channel `c` names (`true`: an
/// input port): graph inputs feed input ports, graph outputs are fed by
/// output ports, and a reference of a connection names an output port when
/// the type of its node declares an output of that name, an input port
/// otherwise.
pub open spec fn ref_side(g: GraphV, regs: Seq<RegV>, c: int, node: Seq<char>, port: Seq<char>) -> bool {
    if c < g.inputs.len() {
        true
    } else if c < g.inputs.len() + g.outputs.len() {
        false
    } else {
        match node_reg_spec(g, regs, node) {
            Some(k) => first_index(regs[k].outputs, is_name(port)) is None,
            None => true,
        }
    }
}

/// The groups of one side of a node plan.
pub open spec fn side_groups(np: NodePlan, input: bool) -> Seq<PortGroup> {
    if input {
        np.inputs@
    } else {
        np.outputs@
    }
}

/// Some group of `gs` for `port` holds an end on channel `c` with `tag`.
pub open spec fn reaches(gs: Seq<PortGroup>, port: Seq<char>, c: int, tag: Option<u64>) -> bool {
    exists|j: int, m: int|
        0 <= j < gs.len() && 0 <= m < gs[j].endpoints@.len() && gs[j].port@ == port && (
        #[trigger] gs[j].endpoints@[m]).channel == Some(c as usize) && gs[j].endpoints@[m].tag == tag
}

/// Every reference of every channel reaches its port: the first node of the
/// name it gives receives, in the group of the port it names on the side it
/// names, an end on that channel with the reference's tag.
pub open spec fn plan_complete(g: GraphV, regs: Seq<RegV>, p: GraphPlan) -> bool {
    forall|c: int, k: int|
        0 <= c < channel_count(g) && 0 <= k < entry_refs(g, c).len() ==> match port_parse_spec(
            #[trigger] entry_refs(g, c)[k],
        ) {
            Some((node, port, tag)) => match first_index(g.nodes, crate::subgraph::node_named(node)) {
                Some(i) => 0 <= i < p.nodes@.len() && reaches(
                    side_groups(p.nodes@[i], ref_side(g, regs, c, node, port)),
                    port,
                    c,
                    tag_of(tag),
                ),
                None => false,
            },
            None => false,
        }
}

/// Some slot for `port` of `node` on side `input` holds an end on channel `c` with `tag`.
spec fn slot_reaches(slots: Seq<Slot>, node: Seq<char>, port: Seq<char>, input: bool, c: int, tag: Option<u64>) -> bool {
    exists|s: int, m: int|
        0 <= s < slots.len() && 0 <= m < slots[s].endpoints@.len() && slots[s].node@ == node && slots[s].port@ == port
            && slots[s].input == input && (#[trigger] slots[s].endpoints@[m]).channel == Some(c as usize)
            && slots[s].endpoints@[m].tag == tag
}

/// The `k`-th reference of channel `c` parses and has its end in a slot.
spec fn ref_covered(g: GraphV, regs: Seq<RegV>, slots: Seq<Slot>, c: int, k: int) -> bool {
    match port_parse_spec(entry_refs(g, c)[k]) {
        Some((node, port, tag)) => slot_reaches(slots, node, port, ref_side(g, regs, c, node, port), c, tag_of(tag)),
        None => false,
    }
}

/// Every reference of the channels below `nc`, and of channel `nc` below `k`, is covered.
spec fn covered(g: GraphV, regs: Seq<RegV>, slots: Seq<Slot>, nc: int, k: int) -> bool {
    &&& forall|c: int, kk: int|
        0 <= c < nc && 0 <= kk < entry_refs(g, c).len() ==> #[trigger] ref_covered(g, regs, slots, c, kk)
    &&& forall|kk: int| 0 <= kk < k ==> #[trigger] ref_covered(g, regs, slots, nc, kk)
}

/// The slots only grew: the same keys, each with more ends after the old ones.
spec fn grows(old: Seq<Slot>, new: Seq<Slot>) -> bool {
    &&& old.len() <= new.len()
    &&& forall|s: int|
        0 <= s < old.len() ==> (#[trigger] new[s]).node@ == old[s].node@ && new[s].port@ == old[s].port@
            && new[s].input == old[s].input && old[s].endpoints@.len() <= new[s].endpoints@.len()
            && forall|m: int| 0 <= m < old[s].endpoints@.len() ==> #[trigger] new[s].endpoints@[m] == old[s].endpoints@[m]
}

/// Growing keeps what is covered.
proof fn lemma_grows_covered(g: GraphV, regs: Seq<RegV>, old: Seq<Slot>, new: Seq<Slot>, nc: int, k: int)
    requires
        grows(old, new),
        covered(g, regs, old, nc, k),
    ensures
        covered(g, regs, new, nc, k),
{
    assert forall|c: int, kk: int|
        0 <= c < nc && 0 <= kk < entry_refs(g, c).len() implies #[trigger] ref_covered(g, regs, new, c, kk) by {
        assert(ref_covered(g, regs, old, c, kk));
        lemma_grows_ref(g, regs, old, new, c, kk);
    }
    assert forall|kk: int| 0 <= kk < k implies #[trigger] ref_covered(g, regs, new, nc, kk) by {
        assert(ref_covered(g, regs, old, nc, kk));
        lemma_grows_ref(g, regs, old, new, nc, kk);
    }
}

/// Growing keeps one covered reference.
proof fn lemma_grows_ref(g: GraphV, regs: Seq<RegV>, old: Seq<Slot>, new: Seq<Slot>, c: int, kk: int)
    requires
        grows(old, new),
        ref_covered(g, regs, old, c, kk),
    ensures
        ref_covered(g, regs, new, c, kk),
{
    if let Some((node, port, tag)) = port_parse_spec(entry_refs(g, c)[kk]) {
        let side = ref_side(g, regs, c, node, port);
        let (s, m) = choose|s: int, m: int|
            0 <= s < old.len() && 0 <= m < old[s].endpoints@.len() && old[s].node@ == node && old[s].port@ == port
                && old[s].input == side && (#[trigger] old[s].endpoints@[m]).channel == Some(c as usize)
                && old[s].endpoints@[m].tag == tag_of(tag);
        assert(new[s].endpoints@[m] == old[s].endpoints@[m]);
    }
}

/// Covering every reference of channel `nc` covers the channels below `nc + 1`.
proof fn lemma_covered_next(g: GraphV, regs: Seq<RegV>, slots: Seq<Slot>, nc: int)
    requires
        covered(g, regs, slots, nc, entry_refs(g, nc).len() as int),
    ensures
        covered(g, regs, slots, nc + 1, 0),
{
    assert forall|c: int, kk: int| 0 <= c < nc + 1 && 0 <= kk < entry_refs(g, c).len() implies #[trigger] ref_covered(
        g,
        regs,
        slots,
        c,
        kk,
    ) by {
        if c == nc {
        }
    }
}

/// Every slot belongs to an existing node of a registered type.
spec fn slots_known(g: GraphV, regs: Seq<RegV>, slots: Seq<Slot>) -> bool {
    forall|s: int| 0 <= s < slots.len() ==> node_reg_spec(g, regs, (#[trigger] slots[s]).node@) is Some
}

/// The slots are sound and name channels below `n`.
spec fn slots_ok(g: GraphV, slots: Seq<Slot>, n: nat) -> bool {
    forall|s: int, m: int|
        0 <= s < slots.len() && 0 <= m < slots[s].endpoints@.len() ==> {
            &&& sound_endpoint(g, slots[s].node@, slots[s].port@, #[trigger] slots[s].endpoints@[m])
            &&& slots[s].endpoints@[m].channel matches Some(c) ==> c < n
        }
}

/// The position of the first node named `name` and of its registration.
fn node_reg(g: &GraphConfig, regs: &Vec<NodeRegistration>, node: &str) -> (r: Result<usize, Error>)
    ensures
        r matches Ok(k) ==> k < regs@.len() && node_reg_spec(g@, regs_view(regs@), node@) == Some(k as int),
        match first_index(g@.nodes, crate::subgraph::node_named(node@)) {
            Some(i) => match find_spec(regs_view(regs@), g@.nodes[i].ty) {
                Some(k) => r == Ok::<usize, Error>(k as usize),
                None => r matches Err(Error::UnknownNodeType(t)) && t@ == g@.nodes[i].ty,
            },
            None => r matches Err(Error::UnknownNode(n)) && n@ == node@,
        },
{
    let ni = match crate::subgraph::node_position(&g.nodes, node) {
        Some(i) => i,
        None => {
            return Err(Error::UnknownNode(owned(node)));
        },
    };
    proof {
        assert(g@.nodes[ni as int] == g.nodes@[ni as int]@);
    }
    match find_index(regs, g.nodes[ni].ty.as_str()) {
        Some(k) => Ok(k),
        None => Err(Error::UnknownNodeType(g.nodes[ni].ty.clone())),
    }
}

/// The first-flag position of a port is within the flag list.
proof fn lemma_flag_present(names: Seq<Seq<char>>, flags: Seq<bool>, port: Seq<char>)
    requires
        flags.len() >= names.len(),
    ensures
        flag_present(names, flags, port),
{
    lemma_first_index(names, is_name(port));
}

/// Whether a slot is the one of this node, port and side.
spec fn slot_key(node: Seq<char>, port: Seq<char>, input: bool) -> spec_fn(Slot) -> bool {
    |s: Slot| s.input == input && s.node@ == node && s.port@ == port
}

/// No two slots are for the same node, port and side.
spec fn keys_unique(slots: Seq<Slot>) -> bool {
    forall|a: int, b: int|
        0 <= a < b < slots.len() ==> !(#[trigger] slots[a].input == #[trigger] slots[b].input && slots[a].node@
            == slots[b].node@ && slots[a].port@ == slots[b].port@)
}

/// Attaches an end to a port of a node: the end goes after the others in
/// the first slot of that node, port and side, or into a new slot at the
/// end; a port that takes a single end and already has one is refused, and
/// the slots then stay as they were.
fn attach(
    slots: &mut Vec<Slot>,
    reg: &NodeRegistration,
    node: &str,
    port: &str,
    input: bool,
    e: Endpoint,
    Ghost(g): Ghost<GraphV>,
    Ghost(n): Ghost<nat>,
    Ghost(rv): Ghost<Seq<RegV>>,
    Ghost(rk): Ghost<int>,
) -> (r: Result<(), Error>)
    requires
        slots_ok(g, old(slots)@, n),
        slots_single(g, rv, old(slots)@),
        sound_endpoint(g, node@, port@, e),
        e.channel matches Some(c) ==> c < n,
        reg@.input_array.len() >= reg@.inputs.len(),
        reg@.output_array.len() >= reg@.outputs.len(),
        node_reg_spec(g, rv, node@) == Some(rk),
        0 <= rk < rv.len(),
        rv[rk] == reg@,
    ensures
        slots_ok(g, final(slots)@, n),
        slots_single(g, rv, final(slots)@),
        slots_known(g, rv, old(slots)@) ==> slots_known(g, rv, final(slots)@),
        grows(old(slots)@, final(slots)@),
        keys_unique(old(slots)@) ==> keys_unique(final(slots)@),
        r is Ok ==> (e.channel matches Some(c) ==> slot_reaches(final(slots)@, node@, port@, input, c as int, e.tag)),
        match first_index(old(slots)@, slot_key(node@, port@, input)) {
            Some(k) => if !takes_many(reg@, port@, input) && old(slots)@[k].endpoints@.len() > 0 {
                &&& r matches Err(Error::PortAlreadyConnected { node: a, port: b }) && a@ == node@ && b@ == port@
                &&& final(slots)@ == old(slots)@
            } else {
                &&& r is Ok
                &&& final(slots)@.len() == old(slots)@.len()
                &&& final(slots)@[k].node == old(slots)@[k].node
                &&& final(slots)@[k].port == old(slots)@[k].port
                &&& final(slots)@[k].input == old(slots)@[k].input
                &&& final(slots)@[k].endpoints@ == old(slots)@[k].endpoints@.push(e)
                &&& forall|j: int| 0 <= j < old(slots)@.len() && j != k ==> #[trigger] final(slots)@[j] == old(slots)@[j]
            },
            None => {
                &&& r is Ok
                &&& final(slots)@.len() == old(slots)@.len() + 1
                &&& final(slots)@.take(old(slots)@.len() as int) == old(slots)@
                &&& final(slots)@.last().node@ == node@
                &&& final(slots)@.last().port@ == port@
                &&& final(slots)@.last().input == input
                &&& final(slots)@.last().endpoints@ == seq![e]
            },
        },
{
    let ghost pk = slot_key(node@, port@, input);
    proof {
        lemma_flag_present(reg@.inputs, reg@.input_array, port@);
        lemma_flag_present(reg@.outputs, reg@.output_array, port@);
    }
    let many = if input {
        reg.input_is_array(port) || reg.input_is_dict(port)
    } else {
        reg.output_is_array(port) || reg.output_is_dict(port)
    };
    let mut k: usize = 0;
    while k < slots.len()
        invariant
            k <= slots@.len(),
            slots_ok(g, slots@, n),
            slots_single(g, rv, slots@),
            sound_endpoint(g, node@, port@, e),
            e.channel matches Some(c) ==> c < n,
            node_reg_spec(g, rv, node@) == Some(rk),
            0 <= rk < rv.len(),
            rv[rk] == reg@,
            many == takes_many(reg@, port@, input),
            slots@ == old(slots)@,
            pk == slot_key(node@, port@, input),
            forall|j: int| 0 <= j < k ==> !pk(#[trigger] slots@[j]),
        decreases slots@.len() - k,
    {
        if slots[k].input == input && str_eq(slots[k].node.as_str(), node) && str_eq(
            slots[k].port.as_str(),
            port,
        ) {
            proof {
                crate::search::lemma_first_index_is(slots@, pk, k as int);
            }
            if !many && slots[k].endpoints.len() > 0 {
                return Err(Error::PortAlreadyConnected { node: owned(node), port: owned(port) });
            }
            let ghost before = slots@;
            slots[k].endpoints.push(e);
            proof {
                assert(slots@[k as int].node == before[k as int].node);
                assert(slots@[k as int].port == before[k as int].port);
                assert(slots@[k as int].endpoints@ == before[k as int].endpoints@.push(e));
                assert(before[k as int].node@ == node@);
                assert(before[k as int].port@ == port@);
                assert forall|s: int, m: int|
                    0 <= s < slots@.len() && 0 <= m < slots@[s].endpoints@.len() implies {
                        &&& sound_endpoint(g, slots@[s].node@, slots@[s].port@, #[trigger] slots@[s].endpoints@[m])
                        &&& slots@[s].endpoints@[m].channel matches Some(c) ==> c < n
                    } by {
                    if s != k {
                        assert(slots@[s] == before[s]);
                        assert(before[s].endpoints@[m] == slots@[s].endpoints@[m]);
                    } else if m < before[s].endpoints@.len() {
                        assert(slots@[s].endpoints@[m] == before[s].endpoints@[m]);
                    } else {
                        assert(slots@[s].endpoints@[m] == e);
                    }
                }
                assert forall|s: int| 0 <= s < slots@.len() implies match node_reg_spec(g, rv, (#[trigger] slots@[s]).node@) {
                    Some(kk) => !takes_many(rv[kk], slots@[s].port@, slots@[s].input) ==> slots@[s].endpoints@.len() <= 1,
                    None => true,
                } by {
                    if s != k {
                        assert(slots@[s] == before[s]);
                    }
                }
                assert forall|s: int| 0 <= s < before.len() implies (#[trigger] slots@[s]).node@ == before[s].node@
                    && slots@[s].port@ == before[s].port@ && slots@[s].input == before[s].input
                    && before[s].endpoints@.len() <= slots@[s].endpoints@.len() && forall|m: int|
                    0 <= m < before[s].endpoints@.len() ==> #[trigger] slots@[s].endpoints@[m] == before[s].endpoints@[m] by {
                    if s != k {
                        assert(slots@[s] == before[s]);
                    }
                }
                if let Some(c) = e.channel {
                    let m = before[k as int].endpoints@.len() as int;
                    assert(slots@[k as int].endpoints@[m] == e);
                }
                if slots_known(g, rv, before) {
                    assert forall|s: int| 0 <= s < slots@.len() implies node_reg_spec(g, rv, (#[trigger] slots@[s]).node@) is Some by {
                        if s != k {
                            assert(slots@[s] == before[s]);
                        }
                    }
                }
            }
            return Ok(());
        }
        k += 1;
    }
    proof {
        lemma_first_index(slots@, pk);
    }
    let mut eps: Vec<Endpoint> = Vec::new();
    eps.push(e);
    let ghost before = slots@;
    slots.push(Slot { node: owned(node), port: owned(port), input, endpoints: eps });
    proof {
        assert forall|s: int, m: int|
            0 <= s < slots@.len() && 0 <= m < slots@[s].endpoints@.len() implies {
                &&& sound_endpoint(g, slots@[s].node@, slots@[s].port@, #[trigger] slots@[s].endpoints@[m])
                &&& slots@[s].endpoints@[m].channel matches Some(c) ==> c < n
            } by {
            if s < before.len() {
                assert(slots@[s] == before[s]);
                assert(before[s].endpoints@[m] == slots@[s].endpoints@[m]);
            }
        }
        assert forall|s: int| 0 <= s < slots@.len() implies match node_reg_spec(g, rv, (#[trigger] slots@[s]).node@) {
            Some(kk) => !takes_many(rv[kk], slots@[s].port@, slots@[s].input) ==> slots@[s].endpoints@.len() <= 1,
            None => true,
        } by {
            if s < before.len() {
                assert(slots@[s] == before[s]);
            }
        }
        assert forall|s: int| 0 <= s < before.len() implies (#[trigger] slots@[s]).node@ == before[s].node@
            && slots@[s].port@ == before[s].port@ && slots@[s].input == before[s].input
            && before[s].endpoints@.len() <= slots@[s].endpoints@.len() && forall|m: int|
            0 <= m < before[s].endpoints@.len() ==> #[trigger] slots@[s].endpoints@[m] == before[s].endpoints@[m] by {
            assert(slots@[s] == before[s]);
        }
        let last = before.len() as int;
        assert(slots@[last].endpoints@[0] == e);
        if slots_known(g, rv, before) {
            assert forall|s: int| 0 <= s < slots@.len() implies node_reg_spec(g, rv, (#[trigger] slots@[s]).node@) is Some by {
                if s < before.len() {
                    assert(slots@[s] == before[s]);
                }
            }
        }
    }
    Ok(())
}

/// The node and port a reference names, when it parses.
pub open spec fn key_of(r: Seq<char>) -> Option<(Seq<char>, Seq<char>)> {
    match port_parse_spec(r) {
        Some((n, p, _t)) => Some((n, p)),
        None => None,
    }
}

/// A reference names a port of a node whose type takes a single end there.
pub open spec fn single_key(g: GraphV, regs: Seq<RegV>, r: Seq<char>, input: bool) -> bool {
    match key_of(r) {
        Some((n, p)) => match node_reg_spec(g, regs, n) {
            Some(k) => !takes_many(regs[k], p, input),
            None => false,
        },
        None => false,
    }
}

/// A reference can be laid out on the given side: it parses, its node exists
/// with a registered type, and the inferred graph has that port.
spec fn ref_ok(g: GraphV, regs: Seq<RegV>, ig: InferredGraph, r: Seq<char>, input: bool) -> bool {
    match key_of(r) {
        Some((n, p)) => node_reg_spec(g, regs, n) is Some && ig.has_port(n, p, input),
        None => false,
    }
}

/// A reference that takes a single end finds no end yet in a slot of its key.
spec fn old_free(g: GraphV, regs: Seq<RegV>, slots: Seq<Slot>, r: Seq<char>, input: bool) -> bool {
    single_key(g, regs, r, input) ==> forall|s: int|
        0 <= s < slots.len() && (#[trigger] slots[s]).input == input && key_of(r) == Some((slots[s].node@, slots[s].port@))
            ==> slots[s].endpoints@.len() == 0
}

/// The `k`-th reference of the `i`-th boundary port.
spec fn bref(bs: Seq<PortV>, i: int, k: int) -> Seq<char> {
    bs[i].ports[k]
}

/// A position of a reference among the boundary ports.
spec fn bpos(bs: Seq<PortV>, i: int, k: int) -> bool {
    0 <= i < bs.len() && 0 <= k < bs[i].ports.len()
}

/// Position `(i2, k2)` comes before `(i, k)`.
spec fn before(i2: int, k2: int, i: int, k: int) -> bool {
    i2 < i || (i2 == i && k2 < k)
}

/// The boundary references before `(i, k)` can be laid out on side `input`
/// next to the slots `slots`: boundaries before `i` name some port; each
/// reference can be laid out; no two of them name one port that takes a
/// single end; and none names such a port that already has an end.
#[verifier::opaque]
spec fn boundary_prefix_ok(
    g: GraphV,
    regs: Seq<RegV>,
    ig: InferredGraph,
    slots: Seq<Slot>,
    bs: Seq<PortV>,
    input: bool,
    i: int,
    k: int,
) -> bool {
    &&& forall|i2: int| 0 <= i2 < i && i2 < bs.len() ==> (#[trigger] bs[i2]).ports.len() > 0
    &&& forall|i2: int, k2: int| bpos(bs, i2, k2) && before(i2, k2, i, k) ==> ref_ok(g, regs, ig, #[trigger] bref(bs, i2, k2), input)
    &&& forall|i2: int, k2: int| bpos(bs, i2, k2) && before(i2, k2, i, k) ==> old_free(g, regs, slots, #[trigger] bref(bs, i2, k2), input)
    &&& forall|i2: int, k2: int, i3: int, k3: int|
        bpos(bs, i2, k2) && bpos(bs, i3, k3) && before(i2, k2, i, k) && before(i3, k3, i, k) && (i2 != i3 || k2 != k3)
            && key_of(#[trigger] bref(bs, i2, k2)) is Some && key_of(bref(bs, i2, k2)) == key_of(#[trigger] bref(bs, i3, k3))
            ==> !single_key(g, regs, bref(bs, i2, k2), input)
}

/// Every boundary port of the list can be laid out next to `slots`.
spec fn boundary_ok(g: GraphV, regs: Seq<RegV>, ig: InferredGraph, slots: Seq<Slot>, bs: Seq<PortV>, input: bool) -> bool {
    boundary_prefix_ok(g, regs, ig, slots, bs, input, bs.len() as int, 0)
}

/// Slot `s` has more ends than it had in `old`, or is new.
spec fn grown(old: Seq<Slot>, new: Seq<Slot>, s: int) -> bool {
    s >= old.len() || new[s].endpoints@.len() > old[s].endpoints@.len()
}

/// Growing is transitive.
proof fn lemma_grows_trans(a: Seq<Slot>, b: Seq<Slot>, c: Seq<Slot>)
    requires
        grows(a, b),
        grows(b, c),
    ensures
        grows(a, c),
{
    assert forall|s: int| 0 <= s < a.len() implies (#[trigger] c[s]).node@ == a[s].node@ && c[s].port@ == a[s].port@
        && c[s].input == a[s].input && a[s].endpoints@.len() <= c[s].endpoints@.len() && forall|m: int|
        0 <= m < a[s].endpoints@.len() ==> #[trigger] c[s].endpoints@[m] == a[s].endpoints@[m] by {
        assert(b[s].node@ == a[s].node@);
        assert forall|m: int| 0 <= m < a[s].endpoints@.len() implies #[trigger] c[s].endpoints@[m] == a[s].endpoints@[m] by {
            assert(b[s].endpoints@[m] == a[s].endpoints@[m]);
            assert(c[s].endpoints@[m] == b[s].endpoints@[m]);
        }
    }
}

/// With unique keys, a slot of a key is the first slot of that key.
proof fn lemma_unique_first(slots: Seq<Slot>, node: Seq<char>, port: Seq<char>, input: bool, s: int)
    requires
        keys_unique(slots),
        0 <= s < slots.len(),
        slots[s].input == input && slots[s].node@ == node && slots[s].port@ == port,
    ensures
        first_index(slots, slot_key(node, port, input)) == Some(s),
{
    let pk = slot_key(node, port, input);
    assert(pk(slots[s]));
    lemma_first_index(slots, pk);
    let f = first_index(slots, pk)->0;
    if f < s {
        assert(slots[f].input == slots[s].input);
    }
}

/// Every slot that grew since `s0` is on side `input` and has the key of a
/// boundary reference before `(i, k)`.
#[verifier::opaque]
spec fn grown_named(s0: Seq<Slot>, sl: Seq<Slot>, bv: Seq<PortV>, input: bool, i: int, k: int) -> bool {
    forall|t: int|
        0 <= t < sl.len() && grown(s0, sl, t) ==> (#[trigger] sl[t]).input == input && exists|i2: int, k2: int|
            bpos(bv, i2, k2) && before(i2, k2, i, k) && key_of(#[trigger] bref(bv, i2, k2)) == Some((sl[t].node@, sl[t].port@))
}

/// A reference has an end in a slot of its key on side `input`.
spec fn held(sl: Seq<Slot>, r: Seq<char>, input: bool) -> bool {
    exists|t: int|
        0 <= t < sl.len() && (#[trigger] sl[t]).input == input && key_of(r) == Some((sl[t].node@, sl[t].port@))
            && sl[t].endpoints@.len() > 0
}

/// Every boundary reference before `(i, k)` has an end in a slot of its key on side `input`.
#[verifier::opaque]
spec fn refs_held(sl: Seq<Slot>, bv: Seq<PortV>, input: bool, i: int, k: int) -> bool {
    forall|i2: int, k2: int| bpos(bv, i2, k2) && before(i2, k2, i, k) ==> held(sl, #[trigger] bref(bv, i2, k2), input)
}

/// A reference of the list `bs` names `node`'s `port`, which takes a single
/// end on side `input`, and another reference of the list, or a slot of
/// `s0` that holds an end, has that port too.
spec fn boundary_clash(g: GraphV, rv: Seq<RegV>, s0: Seq<Slot>, bs: Seq<PortV>, input: bool, node: Seq<char>, port: Seq<char>) -> bool {
    exists|i: int, k: int|
        bpos(bs, i, k) && key_of(#[trigger] bref(bs, i, k)) == Some((node, port)) && single_key(g, rv, bref(bs, i, k), input) && (
        (exists|i2: int, k2: int| bpos(bs, i2, k2) && (i2 != i || k2 != k) && key_of(#[trigger] bref(bs, i2, k2)) == Some((node, port)))
            || (exists|t: int|
            0 <= t < s0.len() && (#[trigger] s0[t]).input == input && s0[t].node@ == node && s0[t].port@ == port && s0[t].endpoints@.len() > 0))
}

/// A refused attachment of a reference that takes a single end refuses the boundary list.
proof fn lemma_boundary_refused(
    g: GraphV,
    rv: Seq<RegV>,
    ig: InferredGraph,
    s0: Seq<Slot>,
    sl: Seq<Slot>,
    bv: Seq<PortV>,
    input: bool,
    i: int,
    k: int,
    k0: int,
)
    requires
        bpos(bv, i, k),
        single_key(g, rv, bref(bv, i, k), input),
        grows(s0, sl),
        grown_named(s0, sl, bv, input, i, k),
        0 <= k0 < sl.len(),
        sl[k0].input == input,
        key_of(bref(bv, i, k)) == Some((sl[k0].node@, sl[k0].port@)),
        sl[k0].endpoints@.len() > 0,
    ensures
        !boundary_ok(g, rv, ig, s0, bv, input),
        boundary_clash(g, rv, s0, bv, input, sl[k0].node@, sl[k0].port@),
{
    reveal(boundary_prefix_ok);
    reveal(grown_named);
    let cur = bref(bv, i, k);
    assert(sl[k0] == sl[k0]);
    if grown(s0, sl, k0) {
        let (i2, k2) = choose|i2: int, k2: int|
            bpos(bv, i2, k2) && before(i2, k2, i, k) && key_of(#[trigger] bref(bv, i2, k2)) == Some((sl[k0].node@, sl[k0].port@));
        assert(single_key(g, rv, bref(bv, i2, k2), input));
        assert(before(i2, k2, bv.len() as int, 0) && before(i, k, bv.len() as int, 0));
        assert(key_of(bref(bv, i2, k2)) == key_of(cur));
        assert(i2 != i || k2 != k);
    } else {
        assert(s0[k0].endpoints@.len() > 0);
        assert(s0[k0].node@ == sl[k0].node@);
        assert(!old_free(g, rv, s0, cur, input));
        assert(before(i, k, bv.len() as int, 0));
    }
}

/// One more boundary reference attached: what the layout knows carries over to `(i, k + 1)`.
proof fn lemma_boundary_step(
    g: GraphV,
    rv: Seq<RegV>,
    ig: InferredGraph,
    s0: Seq<Slot>,
    sb: Seq<Slot>,
    sa: Seq<Slot>,
    bv: Seq<PortV>,
    input: bool,
    i: int,
    k: int,
    node: Seq<char>,
    port: Seq<char>,
)
    requires
        bpos(bv, i, k),
        key_of(bref(bv, i, k)) == Some((node, port)),
        ref_ok(g, rv, ig, bref(bv, i, k), input),
        bv[i].ports.len() > 0,
        single_key(g, rv, bref(bv, i, k), input) ==> forall|t: int|
            0 <= t < sb.len() && (#[trigger] sb[t]).input == input && sb[t].node@ == node && sb[t].port@ == port
                ==> sb[t].endpoints@.len() == 0,
        grows(s0, sb),
        grows(sb, sa),
        boundary_prefix_ok(g, rv, ig, s0, bv, input, i, k),
        grown_named(s0, sb, bv, input, i, k),
        refs_held(sb, bv, input, i, k),
        forall|t: int| 0 <= t < sa.len() && grown(sb, sa, t) ==> (#[trigger] sa[t]).input == input && sa[t].node@ == node && sa[t].port@ == port,
        exists|t: int| 0 <= t < sa.len() && (#[trigger] sa[t]).input == input && sa[t].node@ == node && sa[t].port@ == port && sa[t].endpoints@.len() > 0,
    ensures
        grows(s0, sa),
        boundary_prefix_ok(g, rv, ig, s0, bv, input, i, k + 1),
        grown_named(s0, sa, bv, input, i, k + 1),
        refs_held(sa, bv, input, i, k + 1),
{
    reveal(boundary_prefix_ok);
    reveal(grown_named);
    reveal(refs_held);
    let cur = bref(bv, i, k);
    lemma_grows_trans(s0, sb, sa);
    assert forall|t: int| 0 <= t < sa.len() && grown(s0, sa, t) implies (#[trigger] sa[t]).input == input && exists|i2: int, k2: int|
        bpos(bv, i2, k2) && before(i2, k2, i, k + 1) && key_of(#[trigger] bref(bv, i2, k2)) == Some((sa[t].node@, sa[t].port@)) by {
        if grown(sb, sa, t) {
            assert(before(i, k, i, k + 1));
            assert(key_of(bref(bv, i, k)) == Some((sa[t].node@, sa[t].port@)));
        } else {
            assert(sb[t] == sb[t]);
            assert(grown(s0, sb, t));
            let (i2, k2) = choose|i2: int, k2: int|
                bpos(bv, i2, k2) && before(i2, k2, i, k) && key_of(#[trigger] bref(bv, i2, k2)) == Some((sb[t].node@, sb[t].port@));
            assert(before(i2, k2, i, k + 1));
        }
    }
    assert forall|i2: int, k2: int| bpos(bv, i2, k2) && before(i2, k2, i, k + 1) implies held(sa, #[trigger] bref(bv, i2, k2), input) by {
        if i2 == i && k2 == k {
            let t = choose|t: int| 0 <= t < sa.len() && (#[trigger] sa[t]).input == input && sa[t].node@ == node && sa[t].port@ == port && sa[t].endpoints@.len() > 0;
            assert(sa[t].input == input);
        } else {
            assert(before(i2, k2, i, k));
            assert(held(sb, bref(bv, i2, k2), input));
            let r = bref(bv, i2, k2);
            let t = choose|t: int|
                0 <= t < sb.len() && (#[trigger] sb[t]).input == input && key_of(r) == Some((sb[t].node@, sb[t].port@))
                    && sb[t].endpoints@.len() > 0;
            assert(sa[t].node@ == sb[t].node@);
            assert(sa[t].input == input);
        }
    }
    if single_key(g, rv, cur, input) {
        assert forall|t: int|
            0 <= t < s0.len() && (#[trigger] s0[t]).input == input && key_of(cur) == Some((s0[t].node@, s0[t].port@)) implies s0[t].endpoints@.len() == 0 by {
            assert(sb[t].node@ == s0[t].node@);
        }
        assert forall|i2: int, k2: int|
            bpos(bv, i2, k2) && before(i2, k2, i, k) && key_of(#[trigger] bref(bv, i2, k2)) == key_of(cur) implies false by {
            assert(held(sb, bref(bv, i2, k2), input));
            let r = bref(bv, i2, k2);
            let t = choose|t: int|
                0 <= t < sb.len() && (#[trigger] sb[t]).input == input && key_of(r) == Some((sb[t].node@, sb[t].port@))
                    && sb[t].endpoints@.len() > 0;
            assert(sb[t].input == input);
        }
    }
    assert(old_free(g, rv, s0, cur, input));
    assert forall|i2: int, k2: int, i3: int, k3: int|
        bpos(bv, i2, k2) && bpos(bv, i3, k3) && before(i2, k2, i, k + 1) && before(i3, k3, i, k + 1) && (i2 != i3 || k2 != k3)
            && key_of(#[trigger] bref(bv, i2, k2)) is Some && key_of(bref(bv, i2, k2)) == key_of(#[trigger] bref(bv, i3, k3))
            implies !single_key(g, rv, bref(bv, i2, k2), input) by {
        if i2 == i && k2 == k {
            if single_key(g, rv, cur, input) {
                assert(key_of(bref(bv, i3, k3)) == key_of(cur));
                assert(before(i3, k3, i, k));
            }
        } else if i3 == i && k3 == k {
            if single_key(g, rv, bref(bv, i2, k2), input) {
                assert(single_key(g, rv, cur, input));
                assert(before(i2, k2, i, k));
            }
        } else {
            assert(before(i2, k2, i, k) && before(i3, k3, i, k));
        }
    }
    assert forall|i2: int, k2: int| bpos(bv, i2, k2) && before(i2, k2, i, k + 1) implies ref_ok(g, rv, ig, #[trigger] bref(bv, i2, k2), input) by {
        if !(i2 == i && k2 == k) {
            assert(before(i2, k2, i, k));
        }
    }
    assert forall|i2: int, k2: int| bpos(bv, i2, k2) && before(i2, k2, i, k + 1) implies old_free(g, rv, s0, #[trigger] bref(bv, i2, k2), input) by {
        if !(i2 == i && k2 == k) {
            assert(before(i2, k2, i, k));
        }
    }
}

/// A boundary reference that cannot be laid out refuses the boundary list.
proof fn lemma_boundary_bad_ref(g: GraphV, rv: Seq<RegV>, ig: InferredGraph, s0: Seq<Slot>, bv: Seq<PortV>, input: bool, i: int, k: int)
    requires
        bpos(bv, i, k),
        !ref_ok(g, rv, ig, bref(bv, i, k), input),
    ensures
        !boundary_ok(g, rv, ig, s0, bv, input),
{
    reveal(boundary_prefix_ok);
    assert(before(i, k, bv.len() as int, 0));
}

/// A boundary port that names no port refuses the boundary list.
proof fn lemma_boundary_empty(g: GraphV, rv: Seq<RegV>, ig: InferredGraph, s0: Seq<Slot>, bv: Seq<PortV>, input: bool, i: int)
    requires
        0 <= i < bv.len(),
        bv[i].ports.len() == 0,
    ensures
        !boundary_ok(g, rv, ig, s0, bv, input),
{
    reveal(boundary_prefix_ok);
    assert(!(bv[i].ports.len() > 0));
}

/// Nothing is laid out yet.
proof fn lemma_boundary_start(g: GraphV, rv: Seq<RegV>, ig: InferredGraph, s0: Seq<Slot>, bv: Seq<PortV>, input: bool)
    ensures
        boundary_prefix_ok(g, rv, ig, s0, bv, input, 0, 0),
        grown_named(s0, s0, bv, input, 0, 0),
        refs_held(s0, bv, input, 0, 0),
{
    reveal(boundary_prefix_ok);
    reveal(grown_named);
    reveal(refs_held);
}

/// Every reference of boundary `i` laid out: on to the next boundary.
proof fn lemma_boundary_next(g: GraphV, rv: Seq<RegV>, ig: InferredGraph, s0: Seq<Slot>, sl: Seq<Slot>, bv: Seq<PortV>, input: bool, i: int)
    requires
        0 <= i < bv.len(),
        bv[i].ports.len() > 0,
        boundary_prefix_ok(g, rv, ig, s0, bv, input, i, bv[i].ports.len() as int),
        grown_named(s0, sl, bv, input, i, bv[i].ports.len() as int),
        refs_held(sl, bv, input, i, bv[i].ports.len() as int),
    ensures
        boundary_prefix_ok(g, rv, ig, s0, bv, input, i + 1, 0),
        grown_named(s0, sl, bv, input, i + 1, 0),
        refs_held(sl, bv, input, i + 1, 0),
{
    reveal(boundary_prefix_ok);
    reveal(grown_named);
    reveal(refs_held);
    assert forall|i2: int, k2: int| bpos(bv, i2, k2) implies before(i2, k2, i + 1, 0) == before(i2, k2, i, bv[i].ports.len() as int) by {}
    assert forall|i2: int| 0 <= i2 < i + 1 && i2 < bv.len() implies (#[trigger] bv[i2]).ports.len() > 0 by {}
    assert forall|i2: int, k2: int| bpos(bv, i2, k2) && before(i2, k2, i + 1, 0) implies held(sl, #[trigger] bref(bv, i2, k2), input) by {
        assert(before(i2, k2, i, bv[i].ports.len() as int));
    }
}

/// The graph input (`input`) or output ports wired to channels `base..`: it
/// succeeds exactly when [`boundary_ok`] holds of the slots it starts from.
#[verifier::spinoff_prover]
#[verifier::rlimit(60)]
fn lay_boundary(
    g: &GraphConfig,
    regs: &Vec<NodeRegistration>,
    ig: &InferredGraph,
    input: bool,
    channels: &mut Vec<ChannelPlan>,
    names: &mut Vec<(String, usize)>,
    slots: &mut Vec<Slot>,
) -> (r: Result<(), Error>)
    requires
        regs_wf(regs_view(regs@)),
        ig.keys@.len() == ig.types@.len(),
        ig.connections@.len() == channel_count(g@),
        old(channels)@.len() == (if input { 0 } else { g@.inputs.len() }),
        old(names)@.len() == 0,
        slots_ok(g@, old(slots)@, old(channels)@.len() as nat),
        slots_single(g@, regs_view(regs@), old(slots)@),
        slots_known(g@, regs_view(regs@), old(slots)@),
        covered(g@, regs_view(regs@), old(slots)@, old(channels)@.len() as int, 0),
        keys_unique(old(slots)@),
    ensures
        r is Ok ==> {
            let bs = if input { g@.inputs } else { g@.outputs };
            let base = old(channels)@.len();
            &&& final(channels)@.len() == base + bs.len()
            &&& final(channels)@.take(base as int) == old(channels)@
            &&& forall|i: int| base <= i < final(channels)@.len() ==> (#[trigger] final(channels)@[i]).cap == entry_cap(g@, i)
                && final(channels)@[i].ty == ig.connections@[i]
            &&& final(names)@.len() == bs.len()
            &&& forall|i: int| 0 <= i < bs.len() ==> (#[trigger] final(names)@[i]).0@ == bs[i].name && final(names)@[i].1
                == base + i
            &&& slots_ok(g@, final(slots)@, final(channels)@.len() as nat)
            &&& slots_single(g@, regs_view(regs@), final(slots)@)
            &&& slots_known(g@, regs_view(regs@), final(slots)@)
            &&& keys_unique(final(slots)@)
            &&& covered(g@, regs_view(regs@), final(slots)@, final(channels)@.len() as int, 0)
        },
        r is Ok <==> boundary_ok(g@, regs_view(regs@), *ig, old(slots)@, if input { g@.inputs } else { g@.outputs }, input),
        r matches Err(x) ==> match x@ {
            ErrorV::PortAlreadyConnected { node, port } => boundary_clash(
                g@,
                regs_view(regs@),
                old(slots)@,
                if input { g@.inputs } else { g@.outputs },
                input,
                node,
                port,
            ),
            _ => layout_refusal(g@, regs_view(regs@), keys_view(ig.keys@), x@),
        },
        r is Ok ==> grown_named(old(slots)@, final(slots)@, if input { g@.inputs } else { g@.outputs }, input, (if input { g@.inputs } else { g@.outputs }).len() as int, 0),
        r is Ok ==> refs_held(final(slots)@, if input { g@.inputs } else { g@.outputs }, input, (if input { g@.inputs } else { g@.outputs }).len() as int, 0),
        r is Ok ==> grows(old(slots)@, final(slots)@),
{
    let bs = if input { &g.inputs } else { &g.outputs };
    let ghost bv = ports_view(bs@);
    let ghost rv = regs_view(regs@);
    let ghost s0 = slots@;
    let base = channels.len();
    let total = ig.connections.len();
    let ghost ch0 = channels@;
    proof {
        assert(base + bs@.len() <= channel_count(g@));
        assert(bv == (if input { g@.inputs } else { g@.outputs }));
        assert(grows(s0, s0));
        lemma_boundary_start(g@, rv, *ig, s0, bv, input);
    }
    let mut i: usize = 0;
    while i < bs.len()
        invariant
            regs_wf(regs_view(regs@)),
            rv == regs_view(regs@),
            ig.keys@.len() == ig.types@.len(),
            ig.connections@.len() == channel_count(g@),
            bs == (if input { &g.inputs } else { &g.outputs }),
            bv == ports_view(bs@),
            bv == (if input { g@.inputs } else { g@.outputs }),
            base == ch0.len(),
            base == (if input { 0 } else { g@.inputs.len() }),
            base + bs@.len() <= total,
            total == ig.connections@.len(),
            i <= bs@.len(),
            channels@.len() == base + i,
            channels@.take(base as int) == ch0,
            forall|c: int| base <= c < channels@.len() ==> (#[trigger] channels@[c]).cap == entry_cap(g@, c)
                && channels@[c].ty == ig.connections@[c],
            names@.len() == i,
            forall|k: int| 0 <= k < i ==> (#[trigger] names@[k]).0@ == bv[k].name && names@[k].1 == base + k,
            slots_ok(g@, slots@, channels@.len() as nat),
            slots_single(g@, regs_view(regs@), slots@),
            slots_known(g@, regs_view(regs@), slots@),
            keys_unique(slots@),
            covered(g@, regs_view(regs@), slots@, channels@.len() as int, 0),
            grows(s0, slots@),
            s0 == old(slots)@,
            boundary_prefix_ok(g@, rv, *ig, s0, bv, input, i as int, 0),
            grown_named(s0, slots@, bv, input, i as int, 0),
            refs_held(slots@, bv, input, i as int, 0),
        decreases bs@.len() - i,
    {
        proof {
            assert(bv[i as int] == bs@[i as int]@);
        }
        let pc = &bs[i];
        if pc.ports.len() == 0 {
            proof {
                lemma_boundary_empty(g@, rv, *ig, s0, bv, input, i as int);
                if input {
                    assert(g@.inputs[i as int].ports.len() == 0);
                } else {
                    assert(g@.outputs[i as int].ports.len() == 0);
                }
            }
            let d = debug_text(pc.name.as_str());
            if input {
                return Err(Error::BadConnection(concat3("graph input ", d.as_str(), " has no target")));
            } else {
                return Err(Error::BadConnection(concat3("graph output ", d.as_str(), " has no source")));
            }
        }
        let c = base + i;
        let ty = ig.connections[c];
        let ghost chb = channels@;
        channels.push(ChannelPlan { cap: pc.cap, ty });
        names.push((pc.name.clone(), c));
        proof {
            assert(channels@.take(base as int) =~= chb.take(base as int));
            assert(entry_refs(g@, c as int) == pc@.ports);
            assert(entry_cap(g@, c as int) == pc.cap);
        }
        let mut k: usize = 0;
        while k < pc.ports.len()
            invariant
                regs_wf(regs_view(regs@)),
                rv == regs_view(regs@),
                ig.keys@.len() == ig.types@.len(),
                c < channels@.len(),
                c == channels@.len() - 1,
                c == base + i,
                base == (if input { 0 } else { g@.inputs.len() }),
                i < bv.len(),
                bv == (if input { g@.inputs } else { g@.outputs }),
                bv[i as int] == pc@,
                pc@.ports.len() > 0,
                entry_refs(g@, c as int) == strings_view(pc.ports@),
                k <= pc.ports@.len(),
                slots_ok(g@, slots@, channels@.len() as nat),
                slots_single(g@, regs_view(regs@), slots@),
                slots_known(g@, regs_view(regs@), slots@),
                keys_unique(slots@),
                covered(g@, regs_view(regs@), slots@, c as int, k as int),
                input ==> c < g@.inputs.len(),
                !input ==> g@.inputs.len() <= c < g@.inputs.len() + g@.outputs.len(),
                grows(s0, slots@),
                s0 == old(slots)@,
                boundary_prefix_ok(g@, rv, *ig, s0, bv, input, i as int, k as int),
                grown_named(s0, slots@, bv, input, i as int, k as int),
                refs_held(slots@, bv, input, i as int, k as int),
            decreases pc.ports@.len() - k,
        {
            proof {
                assert(bref(bv, i as int, k as int) == pc.ports@[k as int]@);
                assert(bpos(bv, i as int, k as int));
            }
            proof {
                lemma_positions(g@, rv);
                assert(epos(g@, c as int, k as int) && entry_refs(g@, c as int)[k as int] == bref(bv, i as int, k as int));
            }
            let ((node, port), tag) = match Port::parse(pc.ports[k].as_str()) {
                Ok(x) => x,
                Err(e) => {
                    proof {
                        assert(!ref_ok(g@, rv, *ig, bref(bv, i as int, k as int), input));
                        lemma_boundary_bad_ref(g@, rv, *ig, s0, bv, input, i as int, k as int);
                    }
                    return Err(e);
                },
            };
            proof {
                assert(key_of(bref(bv, i as int, k as int)) == Some((node@, port@)));
                assert(key_of(entry_refs(g@, c as int)[k as int]) == Some((node@, port@)));
                assert(eside(g@, rv, c as int, k as int) == input);
            }
            let rk = match node_reg(g, regs, node) {
                Ok(rk) => rk,
                Err(e) => {
                    proof {
                        assert(!ref_ok(g@, rv, *ig, bref(bv, i as int, k as int), input));
                        lemma_boundary_bad_ref(g@, rv, *ig, s0, bv, input, i as int, k as int);
                        lemma_first_index(g@.nodes, crate::subgraph::node_named(node@));
                        if let Some(i0) = first_index(g@.nodes, crate::subgraph::node_named(node@)) {
                            assert(g@.nodes[i0].ty == g@.nodes[i0].ty);
                        } else {
                            assert((key_of(entry_refs(g@, c as int)[k as int])->0).0 == node@);
                        }
                    }
                    return Err(e);
                },
            };
            let port_type = match ig.find_port(node, port, input) {
                Some(t) => t,
                None => {
                    proof {
                        assert(!ref_ok(g@, rv, *ig, bref(bv, i as int, k as int), input));
                        lemma_boundary_bad_ref(g@, rv, *ig, s0, bv, input, i as int, k as int);
                        assert(!eref_ok(g@, rv, keys_view(ig.keys@), c as int, k as int));
                    }
                    return Err(Error::UnknownPort { node: owned(node), port: owned(port) });
                },
            };
            let e = Endpoint { channel: Some(c), port_type, tag };
            proof {
                assert(entry_refs(g@, c as int)[k as int] == pc.ports@[k as int]@);
                assert(ref_names(entry_refs(g@, c as int)[k as int], node@, port@, tag));
                assert(0 <= k < entry_refs(g@, c as int).len());
                lemma_sound_endpoint(g@, node@, port@, e, c, k as int);
                assert(regs_view(regs@)[rk as int] == regs@[rk as int]@);
                assert(single_key(g@, rv, bref(bv, i as int, k as int), input) == !takes_many(regs@[rk as int]@, port@, input));
                assert(ref_ok(g@, rv, *ig, bref(bv, i as int, k as int), input));
            }
            let ghost sb = slots@;
            match attach(slots, &regs[rk], node, port, input, e, Ghost(g@), Ghost(channels@.len() as nat), Ghost(regs_view(regs@)), Ghost(rk as int)) {
                Ok(()) => {},
                Err(e) => {
                    proof {
                        lemma_first_index(sb, slot_key(node@, port@, input));
                        let k0 = first_index(sb, slot_key(node@, port@, input))->0;
                        lemma_boundary_refused(g@, rv, *ig, s0, sb, bv, input, i as int, k as int, k0);
                    }
                    return Err(e);
                },
            }
            proof {
                lemma_grows_covered(g@, regs_view(regs@), sb, slots@, c as int, k as int);
                assert(ref_covered(g@, regs_view(regs@), slots@, c as int, k as int));
                lemma_first_index(sb, slot_key(node@, port@, input));
                if single_key(g@, rv, bref(bv, i as int, k as int), input) {
                    assert forall|t: int|
                        0 <= t < sb.len() && (#[trigger] sb[t]).input == input && sb[t].node@ == node@ && sb[t].port@ == port@
                            implies sb[t].endpoints@.len() == 0 by {
                        lemma_unique_first(sb, node@, port@, input, t);
                    }
                }
                if let Some(k0) = first_index(sb, slot_key(node@, port@, input)) {
                    assert(slots@[k0].endpoints@[slots@[k0].endpoints@.len() - 1] == e);
                } else {
                    assert(slots@[slots@.len() - 1].endpoints@[0] == e);
                }
                lemma_boundary_step(g@, rv, *ig, s0, sb, slots@, bv, input, i as int, k as int, node@, port@);
            }
            k += 1;
        }
        proof {
            lemma_covered_next(g@, regs_view(regs@), slots@, c as int);
            lemma_boundary_next(g@, rv, *ig, s0, slots@, bv, input, i as int);
        }
        i += 1;
    }
    Ok(())
}

/// The `k`-th reference of the `j`-th connection.
pub open spec fn cref(cv: Seq<ConnV>, j: int, k: int) -> Seq<char> {
    cv[j].ports[k]
}

/// A position of a reference among the connections.
spec fn cpos(cv: Seq<ConnV>, j: int, k: int) -> bool {
    0 <= j < cv.len() && 0 <= k < cv[j].ports.len()
}

/// The side a connection reference names (`true`: an input port), the
/// connection being channel `base + j`.
pub open spec fn cside(g: GraphV, rv: Seq<RegV>, base: int, cv: Seq<ConnV>, j: int, k: int) -> bool {
    match key_of(cref(cv, j, k)) {
        Some((n, p)) => ref_side(g, rv, base + j, n, p),
        None => true,
    }
}

/// A connection reference can be laid out: it parses, its node exists with a
/// registered type that declares the port as an output or an input, and the
/// inferred graph has the port on the side it names.
spec fn conn_ref_ok(g: GraphV, rv: Seq<RegV>, ig: InferredGraph, base: int, cv: Seq<ConnV>, j: int, k: int) -> bool {
    match key_of(cref(cv, j, k)) {
        Some((n, p)) => match node_reg_spec(g, rv, n) {
            Some(r) => (first_index(rv[r].outputs, is_name(p)) is Some || first_index(rv[r].inputs, is_name(p)) is Some)
                && ig.has_port(n, p, cside(g, rv, base, cv, j, k)),
            None => false,
        },
        None => false,
    }
}

/// A connection reference parses and names a port that its node's type
/// declares as an output or an input.
spec fn declared_ref(g: GraphV, rv: Seq<RegV>, r: Seq<char>) -> bool {
    match key_of(r) {
        Some((n, p)) => match node_reg_spec(g, rv, n) {
            Some(x) => first_index(rv[x].outputs, is_name(p)) is Some || first_index(rv[x].inputs, is_name(p)) is Some,
            None => false,
        },
        None => false,
    }
}

/// Connection `j` names at least one input port and at least one output port.
pub open spec fn conn_sides(g: GraphV, rv: Seq<RegV>, base: int, cv: Seq<ConnV>, j: int) -> bool {
    &&& exists|k: int| 0 <= k < cv[j].ports.len() && #[trigger] cside(g, rv, base, cv, j, k)
    &&& exists|k: int| 0 <= k < cv[j].ports.len() && !#[trigger] cside(g, rv, base, cv, j, k)
}

/// The connection references in `d` can be laid out next to the slots `s0`:
/// each one can; none names a port that takes a single end and already has
/// one in `s0`; no two name one such port on one side.
#[verifier::opaque]
spec fn conn_prefix_ok(g: GraphV, rv: Seq<RegV>, ig: InferredGraph, s0: Seq<Slot>, cv: Seq<ConnV>, base: int, d: spec_fn(int, int) -> bool) -> bool {
    &&& forall|j: int, k: int| cpos(cv, j, k) && d(j, k) ==> conn_ref_ok(g, rv, ig, base, cv, j, k) && #[trigger] cref(cv, j, k) == cref(cv, j, k)
    &&& forall|j: int, k: int| cpos(cv, j, k) && d(j, k) ==> old_free(g, rv, s0, #[trigger] cref(cv, j, k), cside(g, rv, base, cv, j, k))
    &&& forall|j: int, k: int, j2: int, k2: int|
        cpos(cv, j, k) && cpos(cv, j2, k2) && d(j, k) && d(j2, k2) && (j != j2 || k != k2) && key_of(#[trigger] cref(cv, j, k)) is Some
            && key_of(cref(cv, j, k)) == key_of(#[trigger] cref(cv, j2, k2)) && cside(g, rv, base, cv, j, k) == cside(g, rv, base, cv, j2, k2)
            ==> !single_key(g, rv, cref(cv, j, k), cside(g, rv, base, cv, j, k))
}

/// Every slot grown since `s0` has the key and side of a reference in `d`.
#[verifier::opaque]
spec fn conn_grown_named(g: GraphV, rv: Seq<RegV>, s0: Seq<Slot>, sl: Seq<Slot>, cv: Seq<ConnV>, base: int, d: spec_fn(int, int) -> bool) -> bool {
    forall|t: int| 0 <= t < sl.len() && grown(s0, sl, t) ==> named_in(g, rv, cv, base, d, #[trigger] sl[t])
}

/// Some reference in `d` has the key and side of slot `s`.
spec fn named_in(g: GraphV, rv: Seq<RegV>, cv: Seq<ConnV>, base: int, d: spec_fn(int, int) -> bool, s: Slot) -> bool {
    exists|j: int, k: int|
        cpos(cv, j, k) && d(j, k) && key_of(#[trigger] cref(cv, j, k)) == Some((s.node@, s.port@)) && cside(g, rv, base, cv, j, k) == s.input
}

/// Every reference in `d` has an end in a slot of its key and side.
#[verifier::opaque]
spec fn conn_held(g: GraphV, rv: Seq<RegV>, sl: Seq<Slot>, cv: Seq<ConnV>, base: int, d: spec_fn(int, int) -> bool) -> bool {
    forall|j: int, k: int| cpos(cv, j, k) && d(j, k) ==> held(sl, #[trigger] cref(cv, j, k), cside(g, rv, base, cv, j, k))
}

/// Every connection can be laid out next to the slots `s0`.
spec fn conn_ok(g: GraphV, rv: Seq<RegV>, ig: InferredGraph, s0: Seq<Slot>, cv: Seq<ConnV>, base: int) -> bool {
    &&& conn_prefix_ok(g, rv, ig, s0, cv, base, |j: int, k: int| true)
    &&& forall|j: int| 0 <= j < cv.len() ==> #[trigger] conn_sides(g, rv, base, cv, j)
}

/// The references of the first `j` connections and, of connection `j`, those
/// at positions in `rp` or `sp`.
spec fn attached(j: int, rp: Seq<int>, sp: Seq<int>) -> spec_fn(int, int) -> bool {
    |a: int, b: int| a < j || (a == j && (rp.contains(b) || sp.contains(b)))
}

/// Two sets of positions that agree on every position give the same facts.
proof fn lemma_conn_same(
    g: GraphV,
    rv: Seq<RegV>,
    ig: InferredGraph,
    s0: Seq<Slot>,
    sl: Seq<Slot>,
    cv: Seq<ConnV>,
    base: int,
    d1: spec_fn(int, int) -> bool,
    d2: spec_fn(int, int) -> bool,
)
    requires
        forall|j: int, k: int| cpos(cv, j, k) ==> d1(j, k) == d2(j, k),
    ensures
        conn_prefix_ok(g, rv, ig, s0, cv, base, d1) == conn_prefix_ok(g, rv, ig, s0, cv, base, d2),
        conn_grown_named(g, rv, s0, sl, cv, base, d1) == conn_grown_named(g, rv, s0, sl, cv, base, d2),
        conn_held(g, rv, sl, cv, base, d1) == conn_held(g, rv, sl, cv, base, d2),
{
    reveal(conn_prefix_ok);
    reveal(conn_grown_named);
    reveal(conn_held);
    assert forall|x: Slot| named_in(g, rv, cv, base, d1, x) == named_in(g, rv, cv, base, d2, x) by {
        if named_in(g, rv, cv, base, d1, x) {
            let (j, k) = choose|j: int, k: int|
                cpos(cv, j, k) && d1(j, k) && key_of(#[trigger] cref(cv, j, k)) == Some((x.node@, x.port@)) && cside(g, rv, base, cv, j, k) == x.input;
            assert(d2(j, k));
        }
        if named_in(g, rv, cv, base, d2, x) {
            let (j, k) = choose|j: int, k: int|
                cpos(cv, j, k) && d2(j, k) && key_of(#[trigger] cref(cv, j, k)) == Some((x.node@, x.port@)) && cside(g, rv, base, cv, j, k) == x.input;
            assert(d1(j, k));
        }
    }
}

/// One more connection reference attached, at position `(j, k)` not yet in `d`.
proof fn lemma_conn_step(
    g: GraphV,
    rv: Seq<RegV>,
    ig: InferredGraph,
    s0: Seq<Slot>,
    sb: Seq<Slot>,
    sa: Seq<Slot>,
    cv: Seq<ConnV>,
    base: int,
    d: spec_fn(int, int) -> bool,
    j: int,
    k: int,
    node: Seq<char>,
    port: Seq<char>,
)
    requires
        cpos(cv, j, k),
        !d(j, k),
        key_of(cref(cv, j, k)) == Some((node, port)),
        conn_ref_ok(g, rv, ig, base, cv, j, k),
        single_key(g, rv, cref(cv, j, k), cside(g, rv, base, cv, j, k)) ==> forall|t: int|
            0 <= t < sb.len() && (#[trigger] sb[t]).input == cside(g, rv, base, cv, j, k) && sb[t].node@ == node && sb[t].port@ == port
                ==> sb[t].endpoints@.len() == 0,
        grows(s0, sb),
        grows(sb, sa),
        conn_prefix_ok(g, rv, ig, s0, cv, base, d),
        conn_grown_named(g, rv, s0, sb, cv, base, d),
        conn_held(g, rv, sb, cv, base, d),
        forall|t: int|
            0 <= t < sa.len() && grown(sb, sa, t) ==> (#[trigger] sa[t]).input == cside(g, rv, base, cv, j, k) && sa[t].node@ == node
                && sa[t].port@ == port,
        exists|t: int|
            0 <= t < sa.len() && (#[trigger] sa[t]).input == cside(g, rv, base, cv, j, k) && sa[t].node@ == node && sa[t].port@ == port
                && sa[t].endpoints@.len() > 0,
    ensures
        grows(s0, sa),
        conn_prefix_ok(g, rv, ig, s0, cv, base, |a: int, b: int| d(a, b) || (a == j && b == k)),
        conn_grown_named(g, rv, s0, sa, cv, base, |a: int, b: int| d(a, b) || (a == j && b == k)),
        conn_held(g, rv, sa, cv, base, |a: int, b: int| d(a, b) || (a == j && b == k)),
{
    reveal(conn_prefix_ok);
    reveal(conn_grown_named);
    reveal(conn_held);
    let d2 = |a: int, b: int| d(a, b) || (a == j && b == k);
    let cur = cref(cv, j, k);
    let side = cside(g, rv, base, cv, j, k);
    lemma_grows_trans(s0, sb, sa);
    assert forall|t: int| 0 <= t < sa.len() && grown(s0, sa, t) implies named_in(g, rv, cv, base, d2, #[trigger] sa[t]) by {
        if grown(sb, sa, t) {
            assert(d2(j, k));
            assert(key_of(cref(cv, j, k)) == Some((sa[t].node@, sa[t].port@)));
        } else {
            assert(grown(s0, sb, t));
            assert(named_in(g, rv, cv, base, d, sb[t]));
            let x = sb[t];
            let (j3, k3) = choose|j3: int, k3: int|
                cpos(cv, j3, k3) && d(j3, k3) && key_of(#[trigger] cref(cv, j3, k3)) == Some((x.node@, x.port@)) && cside(g, rv, base, cv, j3, k3) == x.input;
            assert(d2(j3, k3));
            assert(sa[t].node@ == x.node@ && sa[t].port@ == x.port@ && sa[t].input == x.input);
        }
    }
    assert forall|j3: int, k3: int| cpos(cv, j3, k3) && d2(j3, k3) implies held(sa, #[trigger] cref(cv, j3, k3), cside(g, rv, base, cv, j3, k3)) by {
        if j3 == j && k3 == k {
            let t = choose|t: int| 0 <= t < sa.len() && (#[trigger] sa[t]).input == side && sa[t].node@ == node && sa[t].port@ == port && sa[t].endpoints@.len() > 0;
            assert(sa[t].input == side);
        } else {
            assert(held(sb, cref(cv, j3, k3), cside(g, rv, base, cv, j3, k3)));
            let r = cref(cv, j3, k3);
            let sd = cside(g, rv, base, cv, j3, k3);
            let t = choose|t: int|
                0 <= t < sb.len() && (#[trigger] sb[t]).input == sd && key_of(r) == Some((sb[t].node@, sb[t].port@))
                    && sb[t].endpoints@.len() > 0;
            assert(sa[t].node@ == sb[t].node@);
            assert(sa[t].input == sd);
        }
    }
    if single_key(g, rv, cur, side) {
        assert forall|t: int|
            0 <= t < s0.len() && (#[trigger] s0[t]).input == side && key_of(cur) == Some((s0[t].node@, s0[t].port@)) implies s0[t].endpoints@.len() == 0 by {
            assert(sb[t].node@ == s0[t].node@);
        }
        assert forall|j3: int, k3: int|
            cpos(cv, j3, k3) && d(j3, k3) && key_of(#[trigger] cref(cv, j3, k3)) == key_of(cur) && cside(g, rv, base, cv, j3, k3) == side implies false by {
            assert(held(sb, cref(cv, j3, k3), cside(g, rv, base, cv, j3, k3)));
            let r = cref(cv, j3, k3);
            let t = choose|t: int|
                0 <= t < sb.len() && (#[trigger] sb[t]).input == side && key_of(r) == Some((sb[t].node@, sb[t].port@))
                    && sb[t].endpoints@.len() > 0;
            assert(sb[t].input == side);
        }
    }
    assert(old_free(g, rv, s0, cur, side));
    assert forall|j3: int, k3: int, j4: int, k4: int|
        cpos(cv, j3, k3) && cpos(cv, j4, k4) && d2(j3, k3) && d2(j4, k4) && (j3 != j4 || k3 != k4) && key_of(#[trigger] cref(cv, j3, k3)) is Some
            && key_of(cref(cv, j3, k3)) == key_of(#[trigger] cref(cv, j4, k4)) && cside(g, rv, base, cv, j3, k3) == cside(g, rv, base, cv, j4, k4)
            implies !single_key(g, rv, cref(cv, j3, k3), cside(g, rv, base, cv, j3, k3)) by {
        if j3 == j && k3 == k {
            if single_key(g, rv, cur, side) {
                assert(d(j4, k4));
                assert(key_of(cref(cv, j4, k4)) == key_of(cur));
            }
        } else if j4 == j && k4 == k {
            if single_key(g, rv, cref(cv, j3, k3), cside(g, rv, base, cv, j3, k3)) {
                assert(single_key(g, rv, cur, side));
                assert(d(j3, k3));
            }
        } else {
            assert(d(j3, k3) && d(j4, k4));
        }
    }
    assert forall|j3: int, k3: int| cpos(cv, j3, k3) && d2(j3, k3) implies conn_ref_ok(g, rv, ig, base, cv, j3, k3) && #[trigger] cref(cv, j3, k3) == cref(cv, j3, k3) by {
        if !(j3 == j && k3 == k) {
            assert(d(j3, k3));
        }
    }
    assert forall|j3: int, k3: int| cpos(cv, j3, k3) && d2(j3, k3) implies old_free(g, rv, s0, #[trigger] cref(cv, j3, k3), cside(g, rv, base, cv, j3, k3)) by {
        if !(j3 == j && k3 == k) {
            assert(d(j3, k3));
        }
    }
}

/// A reference of the connections `cv` (channels `base..`) names `node`'s
/// `port`, which takes a single end on the side the reference names, and
/// another reference of the connections on that side, or a slot of `s0`
/// that holds an end on that side, has that port too.
spec fn conn_clash(g: GraphV, rv: Seq<RegV>, s0: Seq<Slot>, cv: Seq<ConnV>, base: int, node: Seq<char>, port: Seq<char>) -> bool {
    exists|j: int, k: int|
        cpos(cv, j, k) && key_of(#[trigger] cref(cv, j, k)) == Some((node, port)) && single_key(g, rv, cref(cv, j, k), cside(g, rv, base, cv, j, k))
            && ((exists|j2: int, k2: int|
            cpos(cv, j2, k2) && (j2 != j || k2 != k) && key_of(#[trigger] cref(cv, j2, k2)) == Some((node, port)) && cside(g, rv, base, cv, j2, k2)
                == cside(g, rv, base, cv, j, k)) || (exists|t: int|
            0 <= t < s0.len() && (#[trigger] s0[t]).input == cside(g, rv, base, cv, j, k) && s0[t].node@ == node && s0[t].port@ == port
                && s0[t].endpoints@.len() > 0))
}

/// A refused attachment of a connection reference refuses the connections.
proof fn lemma_conn_refused(
    g: GraphV,
    rv: Seq<RegV>,
    ig: InferredGraph,
    s0: Seq<Slot>,
    sl: Seq<Slot>,
    cv: Seq<ConnV>,
    base: int,
    d: spec_fn(int, int) -> bool,
    j: int,
    k: int,
    k0: int,
)
    requires
        cpos(cv, j, k),
        !d(j, k),
        single_key(g, rv, cref(cv, j, k), cside(g, rv, base, cv, j, k)),
        grows(s0, sl),
        conn_grown_named(g, rv, s0, sl, cv, base, d),
        0 <= k0 < sl.len(),
        sl[k0].input == cside(g, rv, base, cv, j, k),
        key_of(cref(cv, j, k)) == Some((sl[k0].node@, sl[k0].port@)),
        sl[k0].endpoints@.len() > 0,
    ensures
        !conn_ok(g, rv, ig, s0, cv, base),
        conn_clash(g, rv, s0, cv, base, sl[k0].node@, sl[k0].port@),
{
    reveal(conn_prefix_ok);
    reveal(conn_grown_named);
    let cur = cref(cv, j, k);
    let side = cside(g, rv, base, cv, j, k);
    let all = |a: int, b: int| true;
    assert(sl[k0] == sl[k0]);
    if grown(s0, sl, k0) {
        assert(named_in(g, rv, cv, base, d, sl[k0]));
        let x = sl[k0];
        let (j2, k2) = choose|j2: int, k2: int|
            cpos(cv, j2, k2) && d(j2, k2) && key_of(#[trigger] cref(cv, j2, k2)) == Some((x.node@, x.port@)) && cside(g, rv, base, cv, j2, k2) == x.input;
        assert(single_key(g, rv, cref(cv, j2, k2), side));
        assert(all(j2, k2) && all(j, k));
        assert(key_of(cref(cv, j2, k2)) == key_of(cur));
        assert(j2 != j || k2 != k);
    } else {
        assert(s0[k0].endpoints@.len() > 0);
        assert(s0[k0].node@ == sl[k0].node@);
        assert(!old_free(g, rv, s0, cur, side));
        assert(all(j, k));
    }
}

/// A connection reference that cannot be laid out refuses the connections.
proof fn lemma_conn_bad_ref(g: GraphV, rv: Seq<RegV>, ig: InferredGraph, s0: Seq<Slot>, cv: Seq<ConnV>, base: int, j: int, k: int)
    requires
        cpos(cv, j, k),
        !conn_ref_ok(g, rv, ig, base, cv, j, k),
    ensures
        !conn_ok(g, rv, ig, s0, cv, base),
{
    reveal(conn_prefix_ok);
    let all = |a: int, b: int| true;
    assert(all(j, k));
    assert(cref(cv, j, k) == cref(cv, j, k));
}

/// Nothing is laid out yet.
proof fn lemma_conn_start(g: GraphV, rv: Seq<RegV>, ig: InferredGraph, s0: Seq<Slot>, cv: Seq<ConnV>, base: int)
    ensures
        conn_prefix_ok(g, rv, ig, s0, cv, base, attached(0, Seq::empty(), Seq::empty())),
        conn_grown_named(g, rv, s0, s0, cv, base, attached(0, Seq::empty(), Seq::empty())),
        conn_held(g, rv, s0, cv, base, attached(0, Seq::empty(), Seq::empty())),
{
    reveal(conn_prefix_ok);
    reveal(conn_grown_named);
    reveal(conn_held);
}

/// The list holds an end reference of this node, port and tag.
spec fn listed(node: Seq<char>, port: Seq<char>, tag: Option<u64>, list: Seq<EndRef>) -> bool {
    exists|m: int| 0 <= m < list.len() && (#[trigger] list[m]).0@ == node && list[m].1@ == port && list[m].2 == tag
}

/// A reference of connection channel `c` went to the list of its side.
spec fn classified(g: GraphV, regs: Seq<RegV>, c: int, r: Seq<char>, senders: Seq<EndRef>, receivers: Seq<EndRef>) -> bool {
    match port_parse_spec(r) {
        Some((node, port, tag)) => if ref_side(g, regs, c, node, port) {
            listed(node, port, tag_of(tag), receivers)
        } else {
            listed(node, port, tag_of(tag), senders)
        },
        None => false,
    }
}

/// Growing keeps an end in its slot.
proof fn lemma_grows_reaches(old: Seq<Slot>, new: Seq<Slot>, node: Seq<char>, port: Seq<char>, input: bool, c: int, tag: Option<u64>)
    requires
        grows(old, new),
        slot_reaches(old, node, port, input, c, tag),
    ensures
        slot_reaches(new, node, port, input, c, tag),
{
    let (s, m) = choose|s: int, m: int|
        0 <= s < old.len() && 0 <= m < old[s].endpoints@.len() && old[s].node@ == node && old[s].port@ == port
            && old[s].input == input && (#[trigger] old[s].endpoints@[m]).channel == Some(c as usize)
            && old[s].endpoints@[m].tag == tag;
    assert(new[s].endpoints@[m] == old[s].endpoints@[m]);
}

/// One end of a connection: node, port, tag.
type EndRef<'a> = (&'a str, &'a str, Option<u64>);

/// The internal connections, wired to channels `base..`: it succeeds exactly
/// when [`conn_ok`] holds of the slots it starts from.
#[verifier::spinoff_prover]
#[verifier::rlimit(100)]
fn lay_connections(
    g: &GraphConfig,
    regs: &Vec<NodeRegistration>,
    ig: &InferredGraph,
    channels: &mut Vec<ChannelPlan>,
    slots: &mut Vec<Slot>,
) -> (r: Result<(), Error>)
    requires
        regs_wf(regs_view(regs@)),
        ig.keys@.len() == ig.types@.len(),
        ig.connections@.len() == channel_count(g@),
        old(channels)@.len() == g@.inputs.len() + g@.outputs.len(),
        slots_ok(g@, old(slots)@, old(channels)@.len() as nat),
        slots_single(g@, regs_view(regs@), old(slots)@),
        slots_known(g@, regs_view(regs@), old(slots)@),
        covered(g@, regs_view(regs@), old(slots)@, old(channels)@.len() as int, 0),
        keys_unique(old(slots)@),
    ensures
        r is Ok ==> {
            let base = old(channels)@.len();
            &&& slots_known(g@, regs_view(regs@), final(slots)@)
            &&& keys_unique(final(slots)@)
            &&& covered(g@, regs_view(regs@), final(slots)@, channel_count(g@) as int, 0)
            &&& final(channels)@.len() == channel_count(g@)
            &&& final(channels)@.take(base as int) == old(channels)@
            &&& forall|i: int| base <= i < final(channels)@.len() ==> (#[trigger] final(channels)@[i]).cap == entry_cap(g@, i)
                && final(channels)@[i].ty == ig.connections@[i]
            &&& slots_ok(g@, final(slots)@, final(channels)@.len() as nat)
            &&& slots_single(g@, regs_view(regs@), final(slots)@)
        },
        r is Ok <==> conn_ok(g@, regs_view(regs@), *ig, old(slots)@, g@.connections, (g@.inputs.len() + g@.outputs.len()) as int),
        r matches Err(x) ==> match x@ {
            ErrorV::PortAlreadyConnected { node, port } => conn_clash(
                g@,
                regs_view(regs@),
                old(slots)@,
                g@.connections,
                (g@.inputs.len() + g@.outputs.len()) as int,
                node,
                port,
            ),
            _ => layout_refusal(g@, regs_view(regs@), keys_view(ig.keys@), x@),
        },
        r is Ok ==> conn_grown_named(g@, regs_view(regs@), old(slots)@, final(slots)@, g@.connections, (g@.inputs.len() + g@.outputs.len()) as int, |a: int, b: int| true),
        r is Ok ==> conn_held(g@, regs_view(regs@), final(slots)@, g@.connections, (g@.inputs.len() + g@.outputs.len()) as int, |a: int, b: int| true),
        r is Ok ==> grows(old(slots)@, final(slots)@),
{
    let base = channels.len();
    let total = ig.connections.len();
    let ghost ch0 = channels@;
    let ghost cv = conns_view(g.connections@);
    let ghost rv = regs_view(regs@);
    let ghost s0 = slots@;
    let ghost ib = base as int;
    proof {
        lemma_conn_start(g@, rv, *ig, s0, cv, ib);
        assert(grows(s0, s0));
    }
    let mut j: usize = 0;
    while j < g.connections.len()
        invariant
            regs_wf(regs_view(regs@)),
            rv == regs_view(regs@),
            ig.keys@.len() == ig.types@.len(),
            ig.connections@.len() == channel_count(g@),
            total == ig.connections@.len(),
            cv == conns_view(g.connections@),
            cv == g@.connections,
            base == ch0.len(),
            base == g@.inputs.len() + g@.outputs.len(),
            ib == base,
            j <= g.connections@.len(),
            channels@.len() == base + j,
            channels@.take(base as int) == ch0,
            forall|c: int| base <= c < channels@.len() ==> (#[trigger] channels@[c]).cap == entry_cap(g@, c)
                && channels@[c].ty == ig.connections@[c],
            slots_ok(g@, slots@, channels@.len() as nat),
            slots_single(g@, regs_view(regs@), slots@),
            slots_known(g@, regs_view(regs@), slots@),
            keys_unique(slots@),
            covered(g@, regs_view(regs@), slots@, channels@.len() as int, 0),
            s0 == old(slots)@,
            grows(s0, slots@),
            conn_prefix_ok(g@, rv, *ig, s0, cv, ib, attached(j as int, Seq::empty(), Seq::empty())),
            conn_grown_named(g@, rv, s0, slots@, cv, ib, attached(j as int, Seq::empty(), Seq::empty())),
            conn_held(g@, rv, slots@, cv, ib, attached(j as int, Seq::empty(), Seq::empty())),
            forall|jj: int| 0 <= jj < j ==> #[trigger] conn_sides(g@, rv, ib, cv, jj),
        decreases g.connections@.len() - j,
    {
        let conn = &g.connections[j];
        let c = base + j;
        proof {
            assert(cv[j as int] == conn@);
            assert(entry_refs(g@, c as int) == strings_view(conn.ports@));
        }
        let mut senders: Vec<EndRef> = Vec::new();
        let mut receivers: Vec<EndRef> = Vec::new();
        let ghost mut rpos: Seq<int> = Seq::empty();
        let ghost mut spos: Seq<int> = Seq::empty();
        let mut k: usize = 0;
        while k < conn.ports.len()
            invariant
                entry_refs(g@, c as int) == strings_view(conn.ports@),
                k <= conn.ports@.len(),
                forall|m: int| 0 <= m < senders@.len() ==> channel_names(g@, c as int, (#[trigger] senders@[m]).0@, senders@[m].1@, senders@[m].2),
                forall|m: int| 0 <= m < receivers@.len() ==> channel_names(g@, c as int, (#[trigger] receivers@[m]).0@, receivers@[m].1@, receivers@[m].2),
                c >= g@.inputs.len() + g@.outputs.len(),
                forall|kk: int| 0 <= kk < k ==> classified(g@, regs_view(regs@), c as int, #[trigger] entry_refs(g@, c as int)[kk], senders@, receivers@),
                rv == regs_view(regs@),
                cv == g@.connections,
                j < cv.len(),
                cv[j as int] == conn@,
                c == ib + j,
                ib == g@.inputs.len() + g@.outputs.len(),
                rpos.len() == receivers@.len(),
                spos.len() == senders@.len(),
                forall|m: int| 0 <= m < rpos.len() ==> 0 <= #[trigger] rpos[m] < k && key_of(cref(cv, j as int, rpos[m])) == Some((receivers@[m].0@, receivers@[m].1@))
                    && cside(g@, rv, ib, cv, j as int, rpos[m]),
                forall|m: int| 0 <= m < spos.len() ==> 0 <= #[trigger] spos[m] < k && key_of(cref(cv, j as int, spos[m])) == Some((senders@[m].0@, senders@[m].1@))
                    && !cside(g@, rv, ib, cv, j as int, spos[m]),
                forall|a: int, b: int| 0 <= a < b < rpos.len() ==> rpos[a] < rpos[b],
                forall|a: int, b: int| 0 <= a < b < spos.len() ==> spos[a] < spos[b],
                forall|kk: int| 0 <= kk < k ==> rpos.contains(kk) || spos.contains(kk),
                forall|kk: int| 0 <= kk < k ==> #[trigger] declared_ref(g@, rv, cref(cv, j as int, kk)),
                s0 == old(slots)@,
            decreases conn.ports@.len() - k,
        {
            let ghost s0l = senders@;
            let ghost r0l = receivers@;
            proof {
                assert(cref(cv, j as int, k as int) == conn.ports@[k as int]@);
                assert(cpos(cv, j as int, k as int));
            }
            proof {
                lemma_positions(g@, rv);
                assert(epos(g@, c as int, k as int) && entry_refs(g@, c as int)[k as int] == cref(cv, j as int, k as int));
            }
            let ((node, port), tag) = match Port::parse(conn.ports[k].as_str()) {
                Ok(x) => x,
                Err(e) => {
                    proof {
                        lemma_conn_bad_ref(g@, rv, *ig, s0, cv, ib, j as int, k as int);
                    }
                    return Err(e);
                },
            };
            proof {
                assert(entry_refs(g@, c as int)[k as int] == conn.ports@[k as int]@);
                assert(ref_names(entry_refs(g@, c as int)[k as int], node@, port@, tag));
                assert(key_of(cref(cv, j as int, k as int)) == Some((node@, port@)));
            }
            let ni = match crate::subgraph::node_position(&g.nodes, node) {
                Some(ni) => ni,
                None => {
                    proof {
                        lemma_conn_bad_ref(g@, rv, *ig, s0, cv, ib, j as int, k as int);
                        assert(nodes_view(g.nodes@) == g@.nodes);
                        assert((key_of(entry_refs(g@, c as int)[k as int])->0).0 == node@);
                    }
                    return Err(Error::UnknownNode(owned(node)));
                },
            };
            proof {
                assert(g@.nodes[ni as int] == g.nodes@[ni as int]@);
            }
            let reg = match crate::registry::find(regs, g.nodes[ni].ty.as_str()) {
                Some(r) => r,
                None => {
                    proof {
                        lemma_conn_bad_ref(g@, rv, *ig, s0, cv, ib, j as int, k as int);
                        assert(g@.nodes[ni as int].ty == g.nodes@[ni as int].ty@);
                    }
                    return Err(Error::UnknownNodeType(g.nodes[ni].ty.clone()));
                },
            };
            proof {
                assert(node_reg_spec(g@, regs_view(regs@), node@) == find_spec(regs_view(regs@), g@.nodes[ni as int].ty));
            }
            let ghost rr = find_spec(rv, g@.nodes[ni as int].ty)->0;
            if position_of(&reg.outputs, port).is_some() {
                senders.push((node, port, tag));
                proof {
                    spos = spos.push(k as int);
                    assert(!cside(g@, rv, ib, cv, j as int, k as int));
                    assert(declared_ref(g@, rv, cref(cv, j as int, k as int)));
                }
            } else if position_of(&reg.inputs, port).is_some() {
                receivers.push((node, port, tag));
                proof {
                    rpos = rpos.push(k as int);
                    assert(cside(g@, rv, ib, cv, j as int, k as int));
                    assert(declared_ref(g@, rv, cref(cv, j as int, k as int)));
                }
            } else {
                proof {
                    assert(!declared_ref(g@, rv, cref(cv, j as int, k as int)));
                    lemma_conn_bad_ref(g@, rv, *ig, s0, cv, ib, j as int, k as int);
                    assert(!eref_ok(g@, rv, keys_view(ig.keys@), c as int, k as int));
                }
                return Err(Error::UnknownPort { node: owned(node), port: owned(port) });
            }
            proof {
                assert forall|kk: int| 0 <= kk <= k implies classified(
                    g@,
                    regs_view(regs@),
                    c as int,
                    #[trigger] entry_refs(g@, c as int)[kk],
                    senders@,
                    receivers@,
                ) by {
                    if kk < k {
                        assert(classified(g@, regs_view(regs@), c as int, entry_refs(g@, c as int)[kk], s0l, r0l));
                        if let Some((n1, p1, t1)) = port_parse_spec(entry_refs(g@, c as int)[kk]) {
                            if ref_side(g@, regs_view(regs@), c as int, n1, p1) {
                                let m = choose|m: int| 0 <= m < r0l.len() && (#[trigger] r0l[m]).0@ == n1 && r0l[m].1@ == p1 && r0l[m].2 == tag_of(t1);
                                assert(receivers@[m] == r0l[m]);
                            } else {
                                let m = choose|m: int| 0 <= m < s0l.len() && (#[trigger] s0l[m]).0@ == n1 && s0l[m].1@ == p1 && s0l[m].2 == tag_of(t1);
                                assert(senders@[m] == s0l[m]);
                            }
                        }
                    } else {
                        if senders@.len() > s0l.len() {
                            assert(senders@[s0l.len() as int] == (node, port, tag));
                        } else {
                            assert(receivers@[r0l.len() as int] == (node, port, tag));
                        }
                    }
                }
                assert forall|kk: int| 0 <= kk < k + 1 implies rpos.contains(kk) || spos.contains(kk) by {
                    if kk == k {
                        if senders@.len() > s0l.len() {
                            assert(spos[spos.len() - 1] == kk);
                        } else {
                            assert(rpos[rpos.len() - 1] == kk);
                        }
                    }
                }
            }
            k += 1;
        }
        if receivers.len() == 0 || senders.len() == 0 {
            proof {
                if receivers@.len() == 0 {
                    assert forall|kk: int| 0 <= kk < cv[j as int].ports.len() implies !#[trigger] cside(g@, rv, ib, cv, j as int, kk) by {
                        assert(spos.contains(kk));
                        let m = choose|m: int| 0 <= m < spos.len() && spos[m] == kk;
                        assert(!cside(g@, rv, ib, cv, j as int, spos[m]));
                    }
                } else {
                    assert forall|kk: int| 0 <= kk < cv[j as int].ports.len() implies #[trigger] cside(g@, rv, ib, cv, j as int, kk) by {
                        assert(rpos.contains(kk));
                        let m = choose|m: int| 0 <= m < rpos.len() && rpos[m] == kk;
                        assert(cside(g@, rv, ib, cv, j as int, rpos[m]));
                    }
                }
                assert(!conn_sides(g@, rv, ib, cv, j as int));
                assert(0 <= j < g@.connections.len());
            }
            let mut msg = owned("connection ");
            let d = debug_string_list(&conn.ports);
            msg.append(d.as_str());
            msg.append(" has ");
            push_decimal(&mut msg, receivers.len());
            msg.append(" receiver(s) and ");
            push_decimal(&mut msg, senders.len());
            msg.append(" sender(s); need ≥1 receiver (input port) and ≥1 sender (output port)");
            return Err(Error::BadConnection(msg));
        }
        proof {
            assert(cside(g@, rv, ib, cv, j as int, rpos[0]));
            assert(!cside(g@, rv, ib, cv, j as int, spos[0]));
            assert(conn_sides(g@, rv, ib, cv, j as int));
            lemma_conn_same(g@, rv, *ig, s0, slots@, cv, ib, attached(j as int, Seq::empty(), Seq::empty()), attached(j as int, rpos.take(0), Seq::empty()));
        }
        let ty = ig.connections[c];
        let ghost chb = channels@;
        channels.push(ChannelPlan { cap: conn.cap, ty });
        proof {
            assert(channels@.take(base as int) =~= chb.take(base as int));
            assert(entry_cap(g@, c as int) == conn.cap);
        }
        let mut m: usize = 0;
        while m < receivers.len()
            invariant
                regs_wf(regs_view(regs@)),
                ig.keys@.len() == ig.types@.len(),
                c < channels@.len(),
                c == channels@.len() - 1,
                m <= receivers@.len(),
                forall|m: int| 0 <= m < receivers@.len() ==> channel_names(g@, c as int, (#[trigger] receivers@[m]).0@, receivers@[m].1@, receivers@[m].2),
                slots_ok(g@, slots@, channels@.len() as nat),
                slots_single(g@, regs_view(regs@), slots@),
                slots_known(g@, regs_view(regs@), slots@),
                keys_unique(slots@),
                covered(g@, regs_view(regs@), slots@, c as int, 0),
                forall|mm: int| 0 <= mm < m ==> slot_reaches(slots@, (#[trigger] receivers@[mm]).0@, receivers@[mm].1@, true, c as int, receivers@[mm].2),
                rv == regs_view(regs@),
                cv == g@.connections,
                j < cv.len(),
                c == ib + j,
                ib == g@.inputs.len() + g@.outputs.len(),
                s0 == old(slots)@,
                rpos.len() == receivers@.len(),
                forall|m: int| 0 <= m < rpos.len() ==> 0 <= #[trigger] rpos[m] < cv[j as int].ports.len() && key_of(cref(cv, j as int, rpos[m])) == Some((receivers@[m].0@, receivers@[m].1@))
                    && cside(g@, rv, ib, cv, j as int, rpos[m]),
                forall|a: int, b: int| 0 <= a < b < rpos.len() ==> rpos[a] < rpos[b],
                forall|kk: int| 0 <= kk < cv[j as int].ports.len() ==> #[trigger] declared_ref(g@, rv, cref(cv, j as int, kk)),
                grows(s0, slots@),
                conn_prefix_ok(g@, rv, *ig, s0, cv, ib, attached(j as int, rpos.take(m as int), Seq::empty())),
                conn_grown_named(g@, rv, s0, slots@, cv, ib, attached(j as int, rpos.take(m as int), Seq::empty())),
                conn_held(g@, rv, slots@, cv, ib, attached(j as int, rpos.take(m as int), Seq::empty())),
            decreases receivers@.len() - m,
        {
            let ghost before = slots@;
            let ghost kk = rpos[m as int];
            let ghost dd = attached(j as int, rpos.take(m as int), Seq::empty());
            let (node, port, tag) = receivers[m];
            proof {
                assert(cpos(cv, j as int, kk));
                assert(!rpos.take(m as int).contains(kk)) by {
                    let tk = rpos.take(m as int);
                    if tk.contains(kk) {
                        let q = choose|q: int| 0 <= q < tk.len() && tk[q] == kk;
                        assert(rpos[q] < rpos[m as int]);
                    }
                }
                assert(!dd(j as int, kk));
                assert(declared_ref(g@, rv, cref(cv, j as int, kk)));
            }
            proof {
                lemma_positions(g@, rv);
                assert(epos(g@, c as int, kk) && entry_refs(g@, c as int)[kk] == cref(cv, j as int, kk));
                assert(eside(g@, rv, c as int, kk) == true);
            }
            let rk = match node_reg(g, regs, node) {
                Ok(rk) => rk,
                Err(e) => {
                    proof {
                        lemma_conn_bad_ref(g@, rv, *ig, s0, cv, ib, j as int, kk);
                        lemma_first_index(g@.nodes, crate::subgraph::node_named(node@));
                        if let Some(i0) = first_index(g@.nodes, crate::subgraph::node_named(node@)) {
                            assert(g@.nodes[i0].ty == g@.nodes[i0].ty);
                        } else {
                            assert((key_of(entry_refs(g@, c as int)[kk])->0).0 == node@);
                        }
                    }
                    return Err(e);
                },
            };
            let port_type = match ig.find_port(node, port, true) {
                Some(t) => t,
                None => {
                    proof {
                        lemma_conn_bad_ref(g@, rv, *ig, s0, cv, ib, j as int, kk);
                        assert(!eref_ok(g@, rv, keys_view(ig.keys@), c as int, kk));
                    }
                    return Err(Error::UnknownPort { node: owned(node), port: owned(port) });
                },
            };
            let e = Endpoint { channel: Some(c), port_type, tag };
            proof {
                assert(channel_names(g@, c as int, node@, port@, tag));
                assert(regs_view(regs@)[rk as int] == regs@[rk as int]@);
                assert(conn_ref_ok(g@, rv, *ig, ib, cv, j as int, kk));
                assert(single_key(g@, rv, cref(cv, j as int, kk), true) == !takes_many(regs@[rk as int]@, port@, true));
            }
            match attach(slots, &regs[rk], node, port, true, e, Ghost(g@), Ghost(channels@.len() as nat), Ghost(regs_view(regs@)), Ghost(rk as int)) {
                Ok(()) => {},
                Err(e) => {
                    proof {
                        lemma_first_index(before, slot_key(node@, port@, true));
                        let k0 = first_index(before, slot_key(node@, port@, true))->0;
                        lemma_conn_refused(g@, rv, *ig, s0, before, cv, ib, dd, j as int, kk, k0);
                    }
                    return Err(e);
                },
            }
            proof {
                lemma_grows_covered(g@, regs_view(regs@), before, slots@, c as int, 0);
                assert forall|mm: int| 0 <= mm <= m implies slot_reaches(slots@, (#[trigger] receivers@[mm]).0@, receivers@[mm].1@, true, c as int, receivers@[mm].2) by {
                    if mm < m {
                        lemma_grows_reaches(before, slots@, receivers@[mm].0@, receivers@[mm].1@, true, c as int, receivers@[mm].2);
                    }
                }
                lemma_first_index(before, slot_key(node@, port@, true));
                if single_key(g@, rv, cref(cv, j as int, kk), true) {
                    assert forall|t: int|
                        0 <= t < before.len() && (#[trigger] before[t]).input == true && before[t].node@ == node@ && before[t].port@ == port@
                            implies before[t].endpoints@.len() == 0 by {
                        lemma_unique_first(before, node@, port@, true, t);
                    }
                }
                if let Some(k0) = first_index(before, slot_key(node@, port@, true)) {
                    assert(slots@[k0].endpoints@[slots@[k0].endpoints@.len() - 1] == e);
                } else {
                    assert(slots@[slots@.len() - 1].endpoints@[0] == e);
                }
                lemma_conn_step(g@, rv, *ig, s0, before, slots@, cv, ib, dd, j as int, kk, node@, port@);
                assert(rpos.take(m + 1) == rpos.take(m as int).push(kk));
                assert forall|a: int, b: int| cpos(cv, a, b) implies (dd(a, b) || (a == j && b == kk)) == attached(j as int, rpos.take(m + 1), Seq::empty())(a, b) by {
                    if a == j && b != kk {
                        let tk = rpos.take(m + 1);
                        if tk.contains(b) {
                            let q = choose|q: int| 0 <= q < tk.len() && tk[q] == b;
                            assert(rpos.take(m as int)[q] == b);
                        }
                    }
                    if a == j && b == kk {
                        assert(rpos.take(m + 1)[m as int] == kk);
                    }
                }
                lemma_conn_same(g@, rv, *ig, s0, slots@, cv, ib, |a: int, b: int| dd(a, b) || (a == j && b == kk), attached(j as int, rpos.take(m + 1), Seq::empty()));
            }
            m += 1;
        }
        proof {
            assert(rpos.take(m as int) == rpos);
            lemma_conn_same(g@, rv, *ig, s0, slots@, cv, ib, attached(j as int, rpos.take(m as int), Seq::empty()), attached(j as int, rpos, spos.take(0)));
        }
        let mut m: usize = 0;
        while m < senders.len()
            invariant
                regs_wf(regs_view(regs@)),
                ig.keys@.len() == ig.types@.len(),
                c < channels@.len(),
                c == channels@.len() - 1,
                m <= senders@.len(),
                forall|m: int| 0 <= m < senders@.len() ==> channel_names(g@, c as int, (#[trigger] senders@[m]).0@, senders@[m].1@, senders@[m].2),
                slots_ok(g@, slots@, channels@.len() as nat),
                slots_single(g@, regs_view(regs@), slots@),
                slots_known(g@, regs_view(regs@), slots@),
                keys_unique(slots@),
                covered(g@, regs_view(regs@), slots@, c as int, 0),
                forall|mm: int| 0 <= mm < receivers@.len() ==> slot_reaches(slots@, (#[trigger] receivers@[mm]).0@, receivers@[mm].1@, true, c as int, receivers@[mm].2),
                forall|mm: int| 0 <= mm < m ==> slot_reaches(slots@, (#[trigger] senders@[mm]).0@, senders@[mm].1@, false, c as int, senders@[mm].2),
                rv == regs_view(regs@),
                cv == g@.connections,
                j < cv.len(),
                c == ib + j,
                ib == g@.inputs.len() + g@.outputs.len(),
                s0 == old(slots)@,
                spos.len() == senders@.len(),
                forall|m: int| 0 <= m < spos.len() ==> 0 <= #[trigger] spos[m] < cv[j as int].ports.len() && key_of(cref(cv, j as int, spos[m])) == Some((senders@[m].0@, senders@[m].1@))
                    && !cside(g@, rv, ib, cv, j as int, spos[m]),
                forall|a: int, b: int| 0 <= a < b < spos.len() ==> spos[a] < spos[b],
                forall|q: int| 0 <= q < rpos.len() ==> cside(g@, rv, ib, cv, j as int, #[trigger] rpos[q]),
                forall|kk: int| 0 <= kk < cv[j as int].ports.len() ==> #[trigger] declared_ref(g@, rv, cref(cv, j as int, kk)),
                grows(s0, slots@),
                conn_prefix_ok(g@, rv, *ig, s0, cv, ib, attached(j as int, rpos, spos.take(m as int))),
                conn_grown_named(g@, rv, s0, slots@, cv, ib, attached(j as int, rpos, spos.take(m as int))),
                conn_held(g@, rv, slots@, cv, ib, attached(j as int, rpos, spos.take(m as int))),
            decreases senders@.len() - m,
        {
            let ghost before = slots@;
            let ghost kk = spos[m as int];
            let ghost dd = attached(j as int, rpos, spos.take(m as int));
            let (node, port, tag) = senders[m];
            proof {
                assert(cpos(cv, j as int, kk));
                assert(!spos.take(m as int).contains(kk)) by {
                    let tk = spos.take(m as int);
                    if tk.contains(kk) {
                        let q = choose|q: int| 0 <= q < tk.len() && tk[q] == kk;
                        assert(spos[q] < spos[m as int]);
                    }
                }
                assert(!rpos.contains(kk)) by {
                    if rpos.contains(kk) {
                        let q = choose|q: int| 0 <= q < rpos.len() && rpos[q] == kk;
                        assert(cside(g@, rv, ib, cv, j as int, rpos[q]));
                    }
                }
                assert(!dd(j as int, kk));
                assert(declared_ref(g@, rv, cref(cv, j as int, kk)));
            }
            proof {
                lemma_positions(g@, rv);
                assert(epos(g@, c as int, kk) && entry_refs(g@, c as int)[kk] == cref(cv, j as int, kk));
                assert(eside(g@, rv, c as int, kk) == false);
            }
            let rk = match node_reg(g, regs, node) {
                Ok(rk) => rk,
                Err(e) => {
                    proof {
                        lemma_conn_bad_ref(g@, rv, *ig, s0, cv, ib, j as int, kk);
                        lemma_first_index(g@.nodes, crate::subgraph::node_named(node@));
                        if let Some(i0) = first_index(g@.nodes, crate::subgraph::node_named(node@)) {
                            assert(g@.nodes[i0].ty == g@.nodes[i0].ty);
                        } else {
                            assert((key_of(entry_refs(g@, c as int)[kk])->0).0 == node@);
                        }
                    }
                    return Err(e);
                },
            };
            let port_type = match ig.find_port(node, port, false) {
                Some(t) => t,
                None => {
                    proof {
                        lemma_conn_bad_ref(g@, rv, *ig, s0, cv, ib, j as int, kk);
                        assert(!eref_ok(g@, rv, keys_view(ig.keys@), c as int, kk));
                    }
                    return Err(Error::UnknownPort { node: owned(node), port: owned(port) });
                },
            };
            let e = Endpoint { channel: Some(c), port_type, tag };
            proof {
                assert(channel_names(g@, c as int, node@, port@, tag));
                assert(regs_view(regs@)[rk as int] == regs@[rk as int]@);
                assert(conn_ref_ok(g@, rv, *ig, ib, cv, j as int, kk));
                assert(single_key(g@, rv, cref(cv, j as int, kk), false) == !takes_many(regs@[rk as int]@, port@, false));
            }
            match attach(slots, &regs[rk], node, port, false, e, Ghost(g@), Ghost(channels@.len() as nat), Ghost(regs_view(regs@)), Ghost(rk as int)) {
                Ok(()) => {},
                Err(e) => {
                    proof {
                        lemma_first_index(before, slot_key(node@, port@, false));
                        let k0 = first_index(before, slot_key(node@, port@, false))->0;
                        lemma_conn_refused(g@, rv, *ig, s0, before, cv, ib, dd, j as int, kk, k0);
                    }
                    return Err(e);
                },
            }
            proof {
                lemma_grows_covered(g@, regs_view(regs@), before, slots@, c as int, 0);
                assert forall|mm: int| 0 <= mm < receivers@.len() implies slot_reaches(slots@, (#[trigger] receivers@[mm]).0@, receivers@[mm].1@, true, c as int, receivers@[mm].2) by {
                    lemma_grows_reaches(before, slots@, receivers@[mm].0@, receivers@[mm].1@, true, c as int, receivers@[mm].2);
                }
                assert forall|mm: int| 0 <= mm <= m implies slot_reaches(slots@, (#[trigger] senders@[mm]).0@, senders@[mm].1@, false, c as int, senders@[mm].2) by {
                    if mm < m {
                        lemma_grows_reaches(before, slots@, senders@[mm].0@, senders@[mm].1@, false, c as int, senders@[mm].2);
                    }
                }
                lemma_first_index(before, slot_key(node@, port@, false));
                if single_key(g@, rv, cref(cv, j as int, kk), false) {
                    assert forall|t: int|
                        0 <= t < before.len() && (#[trigger] before[t]).input == false && before[t].node@ == node@ && before[t].port@ == port@
                            implies before[t].endpoints@.len() == 0 by {
                        lemma_unique_first(before, node@, port@, false, t);
                    }
                }
                if let Some(k0) = first_index(before, slot_key(node@, port@, false)) {
                    assert(slots@[k0].endpoints@[slots@[k0].endpoints@.len() - 1] == e);
                } else {
                    assert(slots@[slots@.len() - 1].endpoints@[0] == e);
                }
                lemma_conn_step(g@, rv, *ig, s0, before, slots@, cv, ib, dd, j as int, kk, node@, port@);
                assert(spos.take(m + 1) == spos.take(m as int).push(kk));
                assert forall|a: int, b: int| cpos(cv, a, b) implies (dd(a, b) || (a == j && b == kk)) == attached(j as int, rpos, spos.take(m + 1))(a, b) by {
                    if a == j && b != kk {
                        let tk = spos.take(m + 1);
                        if tk.contains(b) {
                            let q = choose|q: int| 0 <= q < tk.len() && tk[q] == b;
                            assert(spos.take(m as int)[q] == b);
                        }
                    }
                    if a == j && b == kk {
                        assert(spos.take(m + 1)[m as int] == kk);
                    }
                }
                lemma_conn_same(g@, rv, *ig, s0, slots@, cv, ib, |a: int, b: int| dd(a, b) || (a == j && b == kk), attached(j as int, rpos, spos.take(m + 1)));
            }
            m += 1;
        }
        proof {
            assert forall|kk: int| 0 <= kk < entry_refs(g@, c as int).len() implies #[trigger] ref_covered(g@, regs_view(regs@), slots@, c as int, kk) by {
                assert(classified(g@, regs_view(regs@), c as int, entry_refs(g@, c as int)[kk], senders@, receivers@));
                if let Some((n1, p1, t1)) = port_parse_spec(entry_refs(g@, c as int)[kk]) {
                    if ref_side(g@, regs_view(regs@), c as int, n1, p1) {
                        let mm = choose|mm: int| 0 <= mm < receivers@.len() && (#[trigger] receivers@[mm]).0@ == n1 && receivers@[mm].1@ == p1 && receivers@[mm].2 == tag_of(t1);
                        assert(slot_reaches(slots@, receivers@[mm].0@, receivers@[mm].1@, true, c as int, receivers@[mm].2));
                    } else {
                        let mm = choose|mm: int| 0 <= mm < senders@.len() && (#[trigger] senders@[mm]).0@ == n1 && senders@[mm].1@ == p1 && senders@[mm].2 == tag_of(t1);
                        assert(slot_reaches(slots@, senders@[mm].0@, senders@[mm].1@, false, c as int, senders@[mm].2));
                    }
                }
            }
            lemma_covered_next(g@, regs_view(regs@), slots@, c as int);
            assert(spos.take(m as int) == spos);
            assert forall|a: int, b: int| cpos(cv, a, b) implies attached(j as int, rpos, spos.take(m as int))(a, b) == attached(j + 1, Seq::empty(), Seq::empty())(a, b) by {
                if a == j {
                    assert(rpos.contains(b) || spos.contains(b));
                }
            }
            lemma_conn_same(g@, rv, *ig, s0, slots@, cv, ib, attached(j as int, rpos, spos.take(m as int)), attached(j + 1, Seq::empty(), Seq::empty()));
        }
        j += 1;
    }
    proof {
        lemma_conn_same(g@, rv, *ig, s0, slots@, cv, ib, attached(j as int, Seq::empty(), Seq::empty()), |a: int, b: int| true);
    }
    Ok(())
}

/// The ports of a side of a node type that are not created at run time, in order.
pub open spec fn live_ports(names: Seq<Seq<char>>, dyn_flags: Seq<bool>) -> Seq<Seq<char>> {
    names.filter(|p: Seq<char>| !flag_of(names, dyn_flags, p))
}

/// The port names of a list of groups.
pub open spec fn group_ports(gs: Seq<PortGroup>) -> Seq<Seq<char>> {
    gs.map_values(|x: PortGroup| x.port@)
}

/// Every end a node receives is sound for its port and names a channel below `n`.
pub open spec fn groups_ok(g: GraphV, name: Seq<char>, gs: Seq<PortGroup>, n: nat) -> bool {
    forall|j: int, m: int|
        0 <= j < gs.len() && 0 <= m < gs[j].endpoints@.len() ==> {
            &&& sound_endpoint(g, name, gs[j].port@, #[trigger] gs[j].endpoints@[m])
            &&& gs[j].endpoints@[m].channel matches Some(c) ==> c < n
        }
}

/// What the node plans satisfy: one per node, in order, with the node's
/// name, type and registration, one group per live port, sound ends, and
/// exactly one end on every port that takes a single one.
pub open spec fn nodes_ok(g: GraphV, regs: Seq<RegV>, ns: Seq<NodePlan>, n: nat) -> bool {
    &&& ns.len() == g.nodes.len()
    &&& forall|i: int| 0 <= i < ns.len() ==> {
        let np = #[trigger] ns[i];
        &&& np.name@ == g.nodes[i].name
        &&& np.ty@ == g.nodes[i].ty
        &&& find_spec(regs, g.nodes[i].ty) == Some(np.reg as int)
        &&& group_ports(np.inputs@) == live_ports(regs[np.reg as int].inputs, regs[np.reg as int].input_dyn)
        &&& group_ports(np.outputs@) == live_ports(regs[np.reg as int].outputs, regs[np.reg as int].output_dyn)
        &&& groups_ok(g, np.name@, np.inputs@, n)
        &&& groups_ok(g, np.name@, np.outputs@, n)
        &&& single_ends(regs[np.reg as int], np.inputs@, true)
        &&& single_ends(regs[np.reg as int], np.outputs@, false)
    }
}

/// Some group of `gs` is for `port` and begins with the ends `eps`.
spec fn has_group(gs: Seq<PortGroup>, port: Seq<char>, eps: Seq<Endpoint>) -> bool {
    exists|j: int|
        0 <= j < gs.len() && (#[trigger] gs[j]).port@ == port && eps.len() <= gs[j].endpoints@.len() && forall|m: int|
            0 <= m < eps.len() ==> #[trigger] gs[j].endpoints@[m] == eps[m]
}

/// Whether slot `s` is one for `port` on the given side that is not taken yet.
spec fn pick(slots: Seq<Slot>, taken: Seq<bool>, port: Seq<char>, input: bool) -> spec_fn(usize) -> bool {
    |s: usize| s < slots.len() && s < taken.len() && slots[s as int].input == input && !taken[s as int] && slots[s as int].port@ == port
}

/// The ends attached to `port` on the given side of the node whose slots are `mine`,
/// taken once: the ends of the first of those slots for that port and side
/// that is not taken yet, which becomes taken; none when there is no such slot.
fn take_group(
    slots: &Vec<Slot>,
    mine: &Vec<usize>,
    port_taken: &mut Vec<bool>,
    port: &str,
    input: bool,
    Ghost(g): Ghost<GraphV>,
    Ghost(name): Ghost<Seq<char>>,
    Ghost(n): Ghost<nat>,
) -> (r: Vec<Endpoint>)
    requires
        slots_ok(g, slots@, n),
        old(port_taken)@.len() == slots@.len(),
        forall|x: int| 0 <= x < mine@.len() ==> #[trigger] mine@[x] < slots@.len() && slots@[mine@[x] as int].node@ == name,
    ensures
        final(port_taken)@.len() == slots@.len(),
        forall|x: int| 0 <= x < slots@.len() && (#[trigger] old(port_taken)@[x]) ==> final(port_taken)@[x],
        forall|m: int| 0 <= m < r@.len() ==> sound_endpoint(g, name, port@, #[trigger] r@[m]) && (r@[m].channel matches Some(c) ==> c < n),
        r@.len() > 0 ==> exists|x: int|
            0 <= x < mine@.len() && (#[trigger] slots@[mine@[x] as int]).port@ == port@ && slots@[mine@[x] as int].input
                == input && r@ == slots@[mine@[x] as int].endpoints@,
        forall|y: int|
            0 <= y < slots@.len() && !old(port_taken)@[y] && #[trigger] final(port_taken)@[y] ==> slots@[y].port@ == port@
                && slots@[y].input == input && r@ == slots@[y].endpoints@ && slots@[y].node@ == name,
        match first_index(mine@, pick(slots@, old(port_taken)@, port@, input)) {
            Some(x) => r@ == slots@[mine@[x] as int].endpoints@ && final(port_taken)@ == old(port_taken)@.update(
                mine@[x] as int,
                true,
            ),
            None => r@.len() == 0 && final(port_taken)@ == old(port_taken)@,
        },
{
    let ghost pk = pick(slots@, old(port_taken)@, port@, input);
    let mut x: usize = 0;
    while x < mine.len()
        invariant
            slots_ok(g, slots@, n),
            port_taken@.len() == slots@.len(),
            forall|x: int| 0 <= x < mine@.len() ==> #[trigger] mine@[x] < slots@.len() && slots@[mine@[x] as int].node@ == name,
            forall|y: int| 0 <= y < slots@.len() && (#[trigger] old(port_taken)@[y]) ==> port_taken@[y],
            port_taken@ == old(port_taken)@,
            pk == pick(slots@, old(port_taken)@, port@, input),
            forall|y: int| 0 <= y < x ==> !pk(#[trigger] mine@[y]),
            x <= mine@.len(),
        decreases mine@.len() - x,
    {
        let s = mine[x];
        if slots[s].input == input && !port_taken[s] && str_eq(slots[s].port.as_str(), port) {
            proof {
                crate::search::lemma_first_index_is(mine@, pk, x as int);
            }
            port_taken.set(s, true);
            let mut r: Vec<Endpoint> = Vec::new();
            let mut m: usize = 0;
            while m < slots[s].endpoints.len()
                invariant
                    slots_ok(g, slots@, n),
                    s < slots@.len(),
                    slots@[s as int].node@ == name,
                    slots@[s as int].port@ == port@,
                    m <= slots@[s as int].endpoints@.len(),
                    forall|k: int| 0 <= k < r@.len() ==> #[trigger] r@[k] == slots@[s as int].endpoints@[k],
                    r@.len() == m,
                decreases slots@[s as int].endpoints@.len() - m,
            {
                r.push(slots[s].endpoints[m]);
                m += 1;
            }
            proof {
                assert forall|k: int| 0 <= k < r@.len() implies sound_endpoint(g, name, port@, #[trigger] r@[k])
                    && (r@[k].channel matches Some(c) ==> c < n) by {
                    assert(r@[k] == slots@[s as int].endpoints@[k]);
                }
                assert(r@ =~= slots@[mine@[x as int] as int].endpoints@);
            }
            return r;
        }
        x += 1;
    }
    proof {
        lemma_first_index(mine@, pk);
    }
    Vec::new()
}

/// The groups of one side of a node, in the registration's port order.
fn node_side(
    slots: &Vec<Slot>,
    mine: &Vec<usize>,
    port_taken: &mut Vec<bool>,
    reg: &NodeRegistration,
    input: bool,
    Ghost(g): Ghost<GraphV>,
    Ghost(name): Ghost<Seq<char>>,
    Ghost(n): Ghost<nat>,
    Ghost(rv): Ghost<Seq<RegV>>,
    Ghost(rk): Ghost<int>,
) -> (r: Vec<PortGroup>)
    requires
        slots_ok(g, slots@, n),
        slots_single(g, rv, slots@),
        old(port_taken)@.len() == slots@.len(),
        forall|x: int| 0 <= x < mine@.len() ==> #[trigger] mine@[x] < slots@.len() && slots@[mine@[x] as int].node@ == name,
        mine@.len() > 0 ==> node_reg_spec(g, rv, name) == Some(rk),
        0 <= rk < rv.len(),
        rv[rk] == reg@,
        reg@.input_array.len() >= reg@.inputs.len(),
        reg@.output_array.len() >= reg@.outputs.len(),
        keys_unique(slots@),
    ensures
        forall|x: int|
            0 <= x < mine@.len() && slots@[#[trigger] mine@[x] as int].input == input && (if input {
                live_ports(reg@.inputs, reg@.input_dyn)
            } else {
                live_ports(reg@.outputs, reg@.output_dyn)
            }).contains(slots@[mine@[x] as int].port@) && !old(port_taken)@[mine@[x] as int] ==> final(port_taken)@[mine@[x] as int],
        single_ends(reg@, r@, input),
        forall|y: int|
            0 <= y < slots@.len() && !old(port_taken)@[y] && #[trigger] final(port_taken)@[y] ==> slots@[y].input == input
                && has_group(r@, slots@[y].port@, slots@[y].endpoints@) && slots@[y].node@ == name,
        final(port_taken)@.len() == slots@.len(),
        forall|x: int| 0 <= x < slots@.len() && (#[trigger] old(port_taken)@[x]) ==> final(port_taken)@[x],
        group_ports(r@) == (if input {
            live_ports(reg@.inputs, reg@.input_dyn)
        } else {
            live_ports(reg@.outputs, reg@.output_dyn)
        }),
        groups_ok(g, name, r@, n),
{
    let names = if input { &reg.inputs } else { &reg.outputs };
    let ghost nv = strings_view(names@);
    let ghost dflags = if input { reg@.input_dyn } else { reg@.output_dyn };
    let mut r: Vec<PortGroup> = Vec::new();
    let mut j: usize = 0;
    proof {
        reveal(Seq::filter);
        assert(nv.take(0) =~= Seq::<Seq<char>>::empty());
        assert(group_ports(r@) =~= Seq::<Seq<char>>::empty());
    }
    while j < names.len()
        invariant
            slots_ok(g, slots@, n),
            port_taken@.len() == slots@.len(),
            forall|x: int| 0 <= x < mine@.len() ==> #[trigger] mine@[x] < slots@.len() && slots@[mine@[x] as int].node@ == name,
            forall|y: int| 0 <= y < slots@.len() && (#[trigger] old(port_taken)@[y]) ==> port_taken@[y],
            reg@.input_array.len() >= reg@.inputs.len(),
            reg@.output_array.len() >= reg@.outputs.len(),
            names == (if input { &reg.inputs } else { &reg.outputs }),
            nv == strings_view(names@),
            dflags == (if input { reg@.input_dyn } else { reg@.output_dyn }),
            j <= names@.len(),
            group_ports(r@) == nv.take(j as int).filter(|p: Seq<char>| !flag_of(nv, dflags, p)),
            groups_ok(g, name, r@, n),
            slots_single(g, rv, slots@),
            mine@.len() > 0 ==> node_reg_spec(g, rv, name) == Some(rk),
            0 <= rk < rv.len(),
            rv[rk] == reg@,
            single_ends(reg@, r@, input),
            forall|y: int|
                0 <= y < slots@.len() && !old(port_taken)@[y] && #[trigger] port_taken@[y] ==> slots@[y].input == input
                    && has_group(r@, slots@[y].port@, slots@[y].endpoints@) && slots@[y].node@ == name,
            keys_unique(slots@),
            forall|x: int, jj: int|
                #![trigger mine@[x], nv[jj]]
                0 <= x < mine@.len() && 0 <= jj < j && slots@[mine@[x] as int].input == input && nv[jj] == slots@[mine@[x] as int].port@
                    && !flag_of(nv, dflags, nv[jj]) && !old(port_taken)@[mine@[x] as int] ==> port_taken@[mine@[x] as int],
        decreases names@.len() - j,
    {
        let p = names[j].as_str();
        proof {
            reveal(Seq::filter);
            assert(nv[j as int] == p@);
            assert(nv.take(j + 1).drop_last() =~= nv.take(j as int));
            assert(nv.take(j + 1).last() == p@);
            lemma_flag_present(reg@.inputs, reg@.input_array, p@);
            lemma_flag_present(reg@.outputs, reg@.output_array, p@);
        }
        let is_dyn = if input { reg.input_is_dyn(p) } else { reg.output_is_dyn(p) };
        if !is_dyn {
            let ghost pt_before = port_taken@;
            let mut eps = take_group(slots, mine, port_taken, p, input, Ghost(g), Ghost(name), Ghost(n));
            proof {
                let pk = pick(slots@, pt_before, p@, input);
                assert forall|x: int, jj: int|
                    #![trigger mine@[x], nv[jj]]
                    0 <= x < mine@.len() && 0 <= jj < j + 1 && slots@[mine@[x] as int].input == input && nv[jj] == slots@[mine@[x] as int].port@
                        && !flag_of(nv, dflags, nv[jj]) && !old(port_taken)@[mine@[x] as int] implies port_taken@[mine@[x] as int] by {
                    if jj < j {
                        if pt_before[mine@[x] as int] {
                        } else {
                            assert(pt_before[mine@[x] as int]);
                        }
                    } else if !pt_before[mine@[x] as int] {
                        assert(pk(mine@[x]));
                        lemma_first_index(mine@, pk);
                        let x2 = first_index(mine@, pk)->0;
                        assert(pk(mine@[x2]));
                        let a = mine@[x] as int;
                        let b = mine@[x2] as int;
                        if a < b {
                            assert(slots@[a].input == slots@[b].input);
                        } else if b < a {
                            assert(slots@[b].input == slots@[a].input);
                        }
                        assert(a == b);
                    }
                }
            }
            let ghost taken = eps@;
            let many = if input {
                reg.input_is_array(p) || reg.input_is_dict(p)
            } else {
                reg.output_is_array(p) || reg.output_is_dict(p)
            };
            proof {
                if eps@.len() > 0 && !many {
                    let x = choose|x: int|
                        0 <= x < mine@.len() && (#[trigger] slots@[mine@[x] as int]).port@ == p@ && slots@[mine@[x] as int].input
                            == input && eps@ == slots@[mine@[x] as int].endpoints@;
                    assert(slots@[mine@[x] as int].node@ == name);
                }
            }
            if eps.len() == 0 && !many {
                eps.push(Endpoint { channel: None, port_type: MsgTypeId::Any, tag: None });
            }
            let ghost before = r@;
            r.push(PortGroup { port: owned(p), endpoints: eps });
            proof {
                assert(group_ports(r@) =~= group_ports(before).push(p@));
                assert forall|jj: int| 0 <= jj < r@.len() && !takes_many(reg@, (#[trigger] r@[jj]).port@, input) implies r@[jj].endpoints@.len() == 1 by {
                    if jj < before.len() {
                        assert(r@[jj] == before[jj]);
                    }
                }
                assert forall|y: int|
                    0 <= y < slots@.len() && !old(port_taken)@[y] && #[trigger] port_taken@[y] implies slots@[y].input == input
                        && has_group(r@, slots@[y].port@, slots@[y].endpoints@) && slots@[y].node@ == name by {
                    if pt_before[y] {
                        let jj = choose|jj: int|
                            0 <= jj < before.len() && (#[trigger] before[jj]).port@ == slots@[y].port@
                                && slots@[y].endpoints@.len() <= before[jj].endpoints@.len() && forall|m: int|
                                0 <= m < slots@[y].endpoints@.len() ==> #[trigger] before[jj].endpoints@[m] == slots@[y].endpoints@[m];
                        assert(r@[jj] == before[jj]);
                    } else {
                        let last = before.len() as int;
                        assert(r@[last].port@ == p@);
                        assert(slots@[y].endpoints@ == taken);
                        if taken.len() > 0 {
                            assert(r@[last].endpoints@ == taken);
                        }
                    }
                }
                assert forall|jj: int, m: int|
                    0 <= jj < r@.len() && 0 <= m < r@[jj].endpoints@.len() implies {
                        &&& sound_endpoint(g, name, r@[jj].port@, #[trigger] r@[jj].endpoints@[m])
                        &&& r@[jj].endpoints@[m].channel matches Some(c) ==> c < n
                    } by {
                    if jj < before.len() {
                        assert(r@[jj] == before[jj]);
                        assert(before[jj].endpoints@[m] == r@[jj].endpoints@[m]);
                    } else {
                        assert(r@[jj].endpoints@[m] == eps@[m]);
                    }
                }
            }
        } else {
            proof {
                assert(group_ports(r@) == nv.take(j + 1).filter(|p: Seq<char>| !flag_of(nv, dflags, p)));
            }
        }
        j += 1;
    }
    proof {
        assert(nv.take(j as int) =~= nv);
        assert(nv == (if input { reg@.inputs } else { reg@.outputs }));
        assert forall|x: int|
            0 <= x < mine@.len() && slots@[#[trigger] mine@[x] as int].input == input && (if input {
                live_ports(reg@.inputs, reg@.input_dyn)
            } else {
                live_ports(reg@.outputs, reg@.output_dyn)
            }).contains(slots@[mine@[x] as int].port@) && !old(port_taken)@[mine@[x] as int] implies port_taken@[mine@[x] as int] by {
            let pt = slots@[mine@[x] as int].port@;
            let pred = |q: Seq<char>| !flag_of(nv, dflags, q);
            let lv = nv.filter(pred);
            assert(lv == live_ports(nv, dflags));
            assert(lv.contains(pt));
            let i = choose|i: int| 0 <= i < lv.len() && lv[i] == pt;
            nv.lemma_filter_pred(pred, i);
            nv.lemma_filter_contains_rev(pred, pt);
            let jj = choose|jj: int| 0 <= jj < nv.len() && nv[jj] == pt;
            assert(nv[jj] == pt);
        }
    }
    r
}

/// Every node's type is registered.
pub open spec fn types_known(g: GraphV, regs: Seq<RegV>) -> bool {
    forall|i: int| 0 <= i < g.nodes.len() ==> #[trigger] find_spec(regs, g.nodes[i].ty) is Some
}

/// The port of a slot is a live port, on the slot's side, of the type of the
/// first node of the slot's name.
spec fn slot_declared(g: GraphV, regs: Seq<RegV>, s: Slot) -> bool {
    match node_reg_spec(g, regs, s.node@) {
        Some(k) => if s.input {
            live_ports(regs[k].inputs, regs[k].input_dyn).contains(s.port@)
        } else {
            live_ports(regs[k].outputs, regs[k].output_dyn).contains(s.port@)
        },
        None => false,
    }
}

/// The plan of every node, in order: it succeeds exactly when every node's
/// type is registered and every attached end is on a live port of its node.
/// Ends attached to an undeclared port refuse the graph.
fn lay_nodes(g: &GraphConfig, regs: &Vec<NodeRegistration>, slots: &Vec<Slot>, Ghost(n): Ghost<nat>) -> (r: Result<
    Vec<NodePlan>,
    Error,
>)
    requires
        regs_wf(regs_view(regs@)),
        slots_ok(g@, slots@, n),
        slots_single(g@, regs_view(regs@), slots@),
        slots_known(g@, regs_view(regs@), slots@),
        keys_unique(slots@),
    ensures
        r is Ok <==> types_known(g@, regs_view(regs@)) && forall|t: int|
            0 <= t < slots@.len() ==> slot_declared(g@, regs_view(regs@), #[trigger] slots@[t]),
        r matches Ok(ns) ==> nodes_ok(g@, regs_view(regs@), ns@, n),
        r matches Err(x) ==> match x@ {
            ErrorV::UnknownNodeType(t) => find_spec(regs_view(regs@), t) is None && exists|i: int|
                0 <= i < g@.nodes.len() && (#[trigger] g@.nodes[i]).ty == t,
            ErrorV::UnknownPort { node, port } => exists|t: int|
                0 <= t < slots@.len() && (#[trigger] slots@[t]).node@ == node && slots@[t].port@ == port && !slot_declared(
                    g@,
                    regs_view(regs@),
                    slots@[t],
                ),
            _ => false,
        },
        r matches Ok(ns) ==> forall|t: int|
            0 <= t < slots@.len() ==> match first_index(g@.nodes, crate::subgraph::node_named((#[trigger] slots@[t]).node@)) {
                Some(i0) => 0 <= i0 < ns@.len() && has_group(side_groups(ns@[i0], slots@[t].input), slots@[t].port@, slots@[t].endpoints@),
                None => false,
            },
{
    let mut node_taken: Vec<bool> = Vec::new();
    let mut port_taken: Vec<bool> = Vec::new();
    let mut s: usize = 0;
    while s < slots.len()
        invariant
            s <= slots@.len(),
            node_taken@.len() == s,
            port_taken@.len() == s,
            forall|t: int| 0 <= t < s ==> !(#[trigger] node_taken@[t]) && !port_taken@[t],
        decreases slots@.len() - s,
    {
        node_taken.push(false);
        port_taken.push(false);
        s += 1;
    }
    let ghost rv = regs_view(regs@);
    let mut out: Vec<NodePlan> = Vec::new();
    let mut i: usize = 0;
    while i < g.nodes.len()
        invariant
            regs_wf(regs_view(regs@)),
            rv == regs_view(regs@),
            slots_ok(g@, slots@, n),
            slots_single(g@, rv, slots@),
            node_taken@.len() == slots@.len(),
            port_taken@.len() == slots@.len(),
            forall|t: int| 0 <= t < slots@.len() && !(#[trigger] node_taken@[t]) ==> forall|j: int|
                0 <= j < i ==> g@.nodes[j].name != slots@[t].node@,
            forall|t: int| 0 <= t < slots@.len() && #[trigger] port_taken@[t] ==> node_taken@[t],
            forall|t: int| 0 <= t < slots@.len() && #[trigger] node_taken@[t] ==> match first_index(g@.nodes, crate::subgraph::node_named(slots@[t].node@)) {
                Some(i0) => 0 <= i0 < i && has_group(side_groups(out@[i0], slots@[t].input), slots@[t].port@, slots@[t].endpoints@),
                None => false,
            },
            slots_known(g@, rv, slots@),
            keys_unique(slots@),
            i <= g.nodes@.len(),
            out@.len() == i,
            forall|k: int| 0 <= k < i ==> {
                let np = #[trigger] out@[k];
                &&& np.name@ == g@.nodes[k].name
                &&& np.ty@ == g@.nodes[k].ty
                &&& find_spec(rv, g@.nodes[k].ty) == Some(np.reg as int)
                &&& group_ports(np.inputs@) == live_ports(rv[np.reg as int].inputs, rv[np.reg as int].input_dyn)
                &&& group_ports(np.outputs@) == live_ports(rv[np.reg as int].outputs, rv[np.reg as int].output_dyn)
                &&& groups_ok(g@, np.name@, np.inputs@, n)
                &&& groups_ok(g@, np.name@, np.outputs@, n)
                &&& single_ends(rv[np.reg as int], np.inputs@, true)
                &&& single_ends(rv[np.reg as int], np.outputs@, false)
            },
        decreases g.nodes@.len() - i,
    {
        let nd = &g.nodes[i];
        proof {
            assert(g@.nodes[i as int] == nd@);
        }
        let rk = match find_index(regs, nd.ty.as_str()) {
            Some(k) => k,
            None => {
                proof {
                    assert(g@.nodes[i as int].ty == nd.ty@);
                }
                return Err(Error::UnknownNodeType(nd.ty.clone()));
            },
        };
        let reg = &regs[rk];
        proof {
            assert(rv[rk as int] == reg@);
        }
        let mut mine: Vec<usize> = Vec::new();
        let mut s: usize = 0;
        let ghost nt0 = node_taken@;
        while s < slots.len()
            invariant
                node_taken@.len() == slots@.len(),
                s <= slots@.len(),
                i < g@.nodes.len(),
                nd@ == g@.nodes[i as int],
                rv == regs_view(regs@),
                find_spec(rv, g@.nodes[i as int].ty) == Some(rk as int),
                forall|x: int| 0 <= x < mine@.len() ==> #[trigger] mine@[x] < slots@.len() && slots@[mine@[x] as int].node@ == nd.name@,
                forall|t: int| 0 <= t < slots@.len() && !(#[trigger] node_taken@[t]) ==> forall|j: int|
                    0 <= j < i ==> g@.nodes[j].name != slots@[t].node@,
                forall|t: int| 0 <= t < s && !(#[trigger] node_taken@[t]) ==> slots@[t].node@ != nd.name@,
                mine@.len() > 0 ==> node_reg_spec(g@, rv, nd.name@) == Some(rk as int),
                mine@.len() > 0 ==> first_index(g@.nodes, crate::subgraph::node_named(nd.name@)) == Some(i as int),
                node_taken@.len() == nt0.len(),
                forall|t: int| 0 <= t < nt0.len() && #[trigger] nt0[t] ==> node_taken@[t],
                forall|t: int| 0 <= t < nt0.len() && #[trigger] node_taken@[t] && !nt0[t] ==> exists|x: int|
                    0 <= x < mine@.len() && mine@[x] == t,
                forall|x: int| 0 <= x < mine@.len() ==> !nt0[#[trigger] mine@[x] as int],
            decreases slots@.len() - s,
        {
            if !node_taken[s] && str_eq(slots[s].node.as_str(), nd.name.as_str()) {
                proof {
                    assert forall|j: int| 0 <= j < i implies !(crate::subgraph::node_named(nd.name@))(g@.nodes[j]) by {
                        assert(g@.nodes[j].name != slots@[s as int].node@);
                    }
                    crate::search::lemma_first_index_is(g@.nodes, crate::subgraph::node_named(nd.name@), i as int);
                }
                let ghost mine0 = mine@;
                let ghost ntb = node_taken@;
                mine.push(s);
                node_taken.set(s, true);
                proof {
                    assert(mine@[mine@.len() - 1] == s);
                    assert forall|t: int| 0 <= t < nt0.len() && #[trigger] node_taken@[t] && !nt0[t] implies exists|x: int|
                        0 <= x < mine@.len() && mine@[x] == t by {
                        if t == s {
                            assert(mine@[mine@.len() - 1] == t);
                        } else {
                            assert(ntb[t]);
                            let x = choose|x: int| 0 <= x < mine0.len() && mine0[x] == t;
                            assert(mine@[x] == t);
                        }
                    }
                }
            }
            s += 1;
        }
        let ghost pt0 = port_taken@;
        let ins = node_side(slots, &mine, &mut port_taken, reg, true, Ghost(g@), Ghost(nd.name@), Ghost(n), Ghost(rv), Ghost(rk as int));
        let ghost pt1 = port_taken@;
        let outs = node_side(slots, &mine, &mut port_taken, reg, false, Ghost(g@), Ghost(nd.name@), Ghost(n), Ghost(rv), Ghost(rk as int));
        proof {
            assert forall|x: int| 0 <= x < mine@.len() && slot_declared(g@, rv, slots@[#[trigger] mine@[x] as int]) implies port_taken@[mine@[x] as int] by {
                let t = mine@[x] as int;
                assert(slots@[t].node@ == nd.name@);
                assert(!nt0[t]);
                assert(!pt0[t]);
                if slots@[t].input {
                    assert(pt1[t]);
                } else {
                    assert(!pt1[t]);
                }
            }
        }
        let mut x: usize = 0;
        while x < mine.len()
            invariant
                port_taken@.len() == slots@.len(),
                forall|x: int| 0 <= x < mine@.len() ==> #[trigger] mine@[x] < slots@.len(),
                x <= mine@.len(),
                forall|y: int| 0 <= y < x && slots@[mine@[y] as int].input ==> #[trigger] port_taken@[mine@[y] as int],
                forall|x: int| 0 <= x < mine@.len() && slot_declared(g@, rv, slots@[#[trigger] mine@[x] as int]) ==> port_taken@[mine@[x] as int],
                rv == regs_view(regs@),
                forall|x: int| 0 <= x < mine@.len() ==> slots@[#[trigger] mine@[x] as int].node@ == nd.name@,
            decreases mine@.len() - x,
        {
            let s = mine[x];
            if slots[s].input && !port_taken[s] {
                proof {
                    assert(!slot_declared(g@, rv, slots@[mine@[x as int] as int]));
                }
                return Err(Error::UnknownPort { node: nd.name.clone(), port: slots[s].port.clone() });
            }
            x += 1;
        }
        let mut x: usize = 0;
        while x < mine.len()
            invariant
                port_taken@.len() == slots@.len(),
                forall|x: int| 0 <= x < mine@.len() ==> #[trigger] mine@[x] < slots@.len(),
                x <= mine@.len(),
                forall|y: int| 0 <= y < mine@.len() && slots@[mine@[y] as int].input ==> #[trigger] port_taken@[mine@[y] as int],
                forall|y: int| 0 <= y < x && !slots@[mine@[y] as int].input ==> #[trigger] port_taken@[mine@[y] as int],
                forall|x: int| 0 <= x < mine@.len() && slot_declared(g@, rv, slots@[#[trigger] mine@[x] as int]) ==> port_taken@[mine@[x] as int],
                rv == regs_view(regs@),
                forall|x: int| 0 <= x < mine@.len() ==> slots@[#[trigger] mine@[x] as int].node@ == nd.name@,
            decreases mine@.len() - x,
        {
            let s = mine[x];
            if !slots[s].input && !port_taken[s] {
                proof {
                    assert(!slot_declared(g@, rv, slots@[mine@[x as int] as int]));
                }
                return Err(Error::UnknownPort { node: nd.name.clone(), port: slots[s].port.clone() });
            }
            x += 1;
        }
        let ghost out0 = out@;
        out.push(NodePlan { name: nd.name.clone(), ty: nd.ty.clone(), reg: rk, inputs: ins, outputs: outs });
        proof {
            assert forall|t: int| 0 <= t < slots@.len() && #[trigger] port_taken@[t] implies node_taken@[t] by {
                if !pt0[t] {
                    if !pt1[t] {
                        assert(slots@[t].node@ == nd.name@);
                    } else {
                        assert(slots@[t].node@ == nd.name@);
                    }
                }
            }
            assert forall|t: int| 0 <= t < slots@.len() && #[trigger] node_taken@[t] implies match first_index(g@.nodes, crate::subgraph::node_named(slots@[t].node@)) {
                Some(i0) => 0 <= i0 < i + 1 && has_group(side_groups(out@[i0], slots@[t].input), slots@[t].port@, slots@[t].endpoints@),
                None => false,
            } by {
                if nt0[t] {
                    if let Some(i0) = first_index(g@.nodes, crate::subgraph::node_named(slots@[t].node@)) {
                        assert(out@[i0] == out0[i0]);
                    }
                } else {
                    let x = choose|x: int| 0 <= x < mine@.len() && mine@[x] == t;
                    assert(port_taken@[mine@[x] as int]);
                    assert(!pt0[t]);
                    assert(out@[i as int].inputs@ == ins@);
                    assert(out@[i as int].outputs@ == outs@);
                    if pt1[t] {
                        assert(slots@[t].input);
                    } else {
                        assert(!slots@[t].input);
                    }
                }
            }
        }
        i += 1;
    }
    proof {
        assert forall|t: int| 0 <= t < slots@.len() implies #[trigger] node_taken@[t] by {
            if !node_taken@[t] {
                lemma_first_index(g@.nodes, crate::subgraph::node_named(slots@[t].node@));
                assert(node_reg_spec(g@, rv, slots@[t].node@) is Some);
            }
        }
        assert forall|t: int| 0 <= t < slots@.len() implies match first_index(g@.nodes, crate::subgraph::node_named((#[trigger] slots@[t]).node@)) {
            Some(i0) => 0 <= i0 < out@.len() && has_group(side_groups(out@[i0], slots@[t].input), slots@[t].port@, slots@[t].endpoints@),
            None => false,
        } by {
            assert(node_taken@[t]);
        }
        assert forall|t: int| 0 <= t < slots@.len() implies slot_declared(g@, rv, #[trigger] slots@[t]) by {
            assert(node_taken@[t]);
            let i0 = first_index(g@.nodes, crate::subgraph::node_named(slots@[t].node@))->0;
            let np = out@[i0];
            let gs = side_groups(np, slots@[t].input);
            let j = choose|j: int|
                0 <= j < gs.len() && (#[trigger] gs[j]).port@ == slots@[t].port@ && slots@[t].endpoints@.len() <= gs[j].endpoints@.len()
                    && forall|m: int| 0 <= m < slots@[t].endpoints@.len() ==> #[trigger] gs[j].endpoints@[m] == slots@[t].endpoints@[m];
            assert(group_ports(gs)[j] == slots@[t].port@);
        }
        assert forall|i0: int| 0 <= i0 < g@.nodes.len() implies #[trigger] find_spec(rv, g@.nodes[i0].ty) is Some by {
            assert(find_spec(rv, g@.nodes[i0].ty) == Some(out@[i0].reg as int));
        }
    }
    Ok(out)
}

/// A position of a reference among all channels of a graph.
pub open spec fn epos(g: GraphV, c: int, k: int) -> bool {
    0 <= c < channel_count(g) && 0 <= k < entry_refs(g, c).len()
}

/// The side the `k`-th reference of channel `c` names (`true`: an input port).
pub open spec fn eside(g: GraphV, regs: Seq<RegV>, c: int, k: int) -> bool {
    match port_parse_spec(entry_refs(g, c)[k]) {
        Some((n, p, _t)) => ref_side(g, regs, c, n, p),
        None => true,
    }
}

/// The `k`-th reference of channel `c` can be laid out: it parses and names
/// a node of registered type; a reference of a connection names a port that
/// the type declares; and the graph has that port on the side named (`ks`:
/// the graph's port keys).
pub open spec fn eref_ok(g: GraphV, regs: Seq<RegV>, ks: Seq<crate::type_infer::PortKeyV>, c: int, k: int) -> bool {
    match port_parse_spec(entry_refs(g, c)[k]) {
        Some((n, p, _t)) => match node_reg_spec(g, regs, n) {
            Some(x) => (c >= g.inputs.len() + g.outputs.len() ==> (first_index(regs[x].outputs, is_name(p)) is Some || first_index(
                regs[x].inputs,
                is_name(p),
            ) is Some)) && crate::search::last_index(ks, crate::type_infer::key_is(n, p, eside(g, regs, c, k))) is Some,
            None => false,
        },
        None => false,
    }
}

/// The port a reference names is live, on the side it names, for the type of
/// the first node of its name.
pub open spec fn ref_live(g: GraphV, regs: Seq<RegV>, r: Seq<char>, input: bool) -> bool {
    match port_parse_spec(r) {
        Some((n, p, _t)) => match node_reg_spec(g, regs, n) {
            Some(x) => if input {
                live_ports(regs[x].inputs, regs[x].input_dyn).contains(p)
            } else {
                live_ports(regs[x].outputs, regs[x].output_dyn).contains(p)
            },
            None => false,
        },
        None => false,
    }
}

/// Two references at different positions name the same port of the same node
/// on the same side, and that port takes a single end.
pub open spec fn single_clash(g: GraphV, regs: Seq<RegV>, c: int, k: int, c2: int, k2: int) -> bool {
    &&& (c != c2 || k != k2)
    &&& key_of(entry_refs(g, c)[k]) is Some
    &&& key_of(entry_refs(g, c)[k]) == key_of(entry_refs(g, c2)[k2])
    &&& eside(g, regs, c, k) == eside(g, regs, c2, k2)
    &&& single_key(g, regs, entry_refs(g, c)[k], eside(g, regs, c, k))
}

/// A graph whose types were inferred with port keys `ks` can be laid out:
/// every graph input and output names a port; every connection names an
/// input port and an output port; every reference can be laid out and names
/// a port that is not created at run time; no port that takes a single end is
/// named twice; and every node's type is registered.
pub open spec fn layout_ok(g: GraphV, regs: Seq<RegV>, ks: Seq<crate::type_infer::PortKeyV>) -> bool {
    &&& forall|i: int| 0 <= i < g.inputs.len() ==> (#[trigger] g.inputs[i]).ports.len() > 0
    &&& forall|i: int| 0 <= i < g.outputs.len() ==> (#[trigger] g.outputs[i]).ports.len() > 0
    &&& forall|j: int| 0 <= j < g.connections.len() ==> #[trigger] conn_sides(g, regs, (g.inputs.len() + g.outputs.len()) as int, g.connections, j)
    &&& forall|c: int, k: int| epos(g, c, k) ==> #[trigger] eref_ok(g, regs, ks, c, k)
    &&& forall|c: int, k: int| epos(g, c, k) ==> ref_live(g, regs, #[trigger] entry_refs(g, c)[k], eside(g, regs, c, k))
    &&& forall|c: int, k: int, c2: int, k2: int| epos(g, c, k) && epos(g, c2, k2) ==> !#[trigger] single_clash(g, regs, c, k, c2, k2)
    &&& types_known(g, regs)
}

/// What a refused layout reports names a fault of the graph of that kind
/// (`ks`: the graph's port keys): a graph input or output that names no
/// port, or a connection without an input port or an output port; a
/// reference that does not parse; a reference to a node that does not
/// exist; a node whose type is not registered; a reference to a port that
/// the graph does not have on the side it names, or that is created at run
/// time; two references to one port that takes a single end.
pub open spec fn layout_refusal(g: GraphV, regs: Seq<RegV>, ks: Seq<crate::type_infer::PortKeyV>, x: ErrorV) -> bool {
    match x {
        ErrorV::BadConnection(_) => {
            ||| exists|i: int| 0 <= i < g.inputs.len() && (#[trigger] g.inputs[i]).ports.len() == 0
            ||| exists|i: int| 0 <= i < g.outputs.len() && (#[trigger] g.outputs[i]).ports.len() == 0
            ||| exists|j: int|
                0 <= j < g.connections.len() && !#[trigger] conn_sides(
                    g,
                    regs,
                    (g.inputs.len() + g.outputs.len()) as int,
                    g.connections,
                    j,
                )
        },
        ErrorV::BadPortRef(s) => exists|c: int, k: int| epos(g, c, k) && #[trigger] entry_refs(g, c)[k] == s && key_of(s) is None,
        ErrorV::UnknownNode(n) => first_index(g.nodes, crate::subgraph::node_named(n)) is None && exists|c: int, k: int|
            epos(g, c, k) && key_of(#[trigger] entry_refs(g, c)[k]) is Some && (key_of(entry_refs(g, c)[k])->0).0 == n,
        ErrorV::UnknownNodeType(t) => find_spec(regs, t) is None && exists|i: int| 0 <= i < g.nodes.len() && (#[trigger] g.nodes[i]).ty == t,
        ErrorV::UnknownPort { node, port } => node_reg_spec(g, regs, node) is Some && exists|c: int, k: int|
            epos(g, c, k) && #[trigger] key_of(entry_refs(g, c)[k]) == Some((node, port)) && (!eref_ok(g, regs, ks, c, k) || !ref_live(
                g,
                regs,
                entry_refs(g, c)[k],
                eside(g, regs, c, k),
            )),
        ErrorV::PortAlreadyConnected { node, port } => exists|c: int, k: int, c2: int, k2: int|
            epos(g, c, k) && epos(g, c2, k2) && #[trigger] single_clash(g, regs, c, k, c2, k2) && key_of(entry_refs(g, c)[k]) == Some(
                (node, port),
            ),
        _ => false,
    }
}

/// Where the references of each list stand among all channels: graph
/// inputs first, then graph outputs, then connections.
proof fn lemma_positions(g: GraphV, rv: Seq<RegV>)
    ensures
        forall|i: int, k: int| bpos(g.inputs, i, k) ==> epos(g, i, k) && entry_refs(g, i)[k] == #[trigger] bref(g.inputs, i, k)
            && eside(g, rv, i, k),
        forall|i: int, k: int|
            bpos(g.outputs, i, k) ==> epos(g, g.inputs.len() + i, k) && entry_refs(g, g.inputs.len() + i)[k] == #[trigger] bref(
                g.outputs,
                i,
                k,
            ) && (key_of(bref(g.outputs, i, k)) is Some ==> !eside(g, rv, g.inputs.len() + i, k)),
        forall|j: int, k: int|
            cpos(g.connections, j, k) ==> epos(g, g.inputs.len() + g.outputs.len() + j, k) && entry_refs(
                g,
                g.inputs.len() + g.outputs.len() + j,
            )[k] == #[trigger] cref(g.connections, j, k) && eside(g, rv, g.inputs.len() + g.outputs.len() + j, k) == cside(
                g,
                rv,
                (g.inputs.len() + g.outputs.len()) as int,
                g.connections,
                j,
                k,
            ),
{
}

/// Every position among all channels is a position of one of the lists.
proof fn lemma_position_of(g: GraphV, c: int, k: int)
    requires
        epos(g, c, k),
    ensures
        c < g.inputs.len() ==> bpos(g.inputs, c, k),
        g.inputs.len() <= c < g.inputs.len() + g.outputs.len() ==> bpos(g.outputs, c - g.inputs.len(), k),
        g.inputs.len() + g.outputs.len() <= c ==> cpos(g.connections, c - g.inputs.len() - g.outputs.len(), k),
{
}

/// Growing keeps an end of a key.
proof fn lemma_held_grows(a: Seq<Slot>, b: Seq<Slot>, r: Seq<char>, input: bool)
    requires
        grows(a, b),
        held(a, r, input),
    ensures
        held(b, r, input),
{
    let t = choose|t: int| 0 <= t < a.len() && (#[trigger] a[t]).input == input && key_of(r) == Some((a[t].node@, a[t].port@)) && a[t].endpoints@.len() > 0;
    assert(b[t].node@ == a[t].node@);
    assert(b[t].input == input);
}

/// A graph that can be laid out passes its graph inputs, from no slots, and
/// then its graph outputs, from the slots of its inputs.
proof fn lemma_layout_boundaries(g: GraphV, rv: Seq<RegV>, ig: InferredGraph, ks: Seq<crate::type_infer::PortKeyV>, s1: Seq<Slot>)
    requires
        keys_view(ig.keys@) == ks,
        layout_ok(g, rv, ks),
    ensures
        boundary_ok(g, rv, ig, Seq::empty(), g.inputs, true),
        grown_named(Seq::empty(), s1, g.inputs, true, g.inputs.len() as int, 0) ==> boundary_ok(g, rv, ig, s1, g.outputs, false),
{
    reveal(boundary_prefix_ok);
    reveal(grown_named);
    lemma_positions(g, rv);
    let bi = g.inputs;
    let bo = g.outputs;
    let ni = g.inputs.len() as int;
    assert forall|i2: int, k2: int| bpos(bi, i2, k2) && before(i2, k2, bi.len() as int, 0) implies ref_ok(g, rv, ig, #[trigger] bref(bi, i2, k2), true) by {
        assert(eref_ok(g, rv, ks, i2, k2));
    }
    assert forall|i2: int, k2: int| bpos(bi, i2, k2) && before(i2, k2, bi.len() as int, 0) implies old_free(g, rv, Seq::empty(), #[trigger] bref(bi, i2, k2), true) by {}
    assert forall|i2: int, k2: int, i3: int, k3: int|
        bpos(bi, i2, k2) && bpos(bi, i3, k3) && before(i2, k2, bi.len() as int, 0) && before(i3, k3, bi.len() as int, 0) && (i2 != i3 || k2 != k3)
            && key_of(#[trigger] bref(bi, i2, k2)) is Some && key_of(bref(bi, i2, k2)) == key_of(#[trigger] bref(bi, i3, k3))
            implies !single_key(g, rv, bref(bi, i2, k2), true) by {
        assert(!single_clash(g, rv, i2, k2, i3, k3));
    }
    assert(boundary_ok(g, rv, ig, Seq::empty(), bi, true));
    if grown_named(Seq::empty(), s1, bi, true, ni, 0) {
        assert forall|i2: int, k2: int| bpos(bo, i2, k2) && before(i2, k2, bo.len() as int, 0) implies ref_ok(g, rv, ig, #[trigger] bref(bo, i2, k2), false) by {
            assert(eref_ok(g, rv, ks, ni + i2, k2));
        }
        assert forall|i2: int, k2: int| bpos(bo, i2, k2) && before(i2, k2, bo.len() as int, 0) implies old_free(g, rv, s1, #[trigger] bref(bo, i2, k2), false) by {
            assert forall|t: int| 0 <= t < s1.len() && (#[trigger] s1[t]).input == false && key_of(bref(bo, i2, k2)) == Some((s1[t].node@, s1[t].port@))
                implies s1[t].endpoints@.len() == 0 by {
                assert(grown(Seq::empty(), s1, t));
            }
        }
        assert forall|i2: int, k2: int, i3: int, k3: int|
            bpos(bo, i2, k2) && bpos(bo, i3, k3) && before(i2, k2, bo.len() as int, 0) && before(i3, k3, bo.len() as int, 0) && (i2 != i3 || k2 != k3)
                && key_of(#[trigger] bref(bo, i2, k2)) is Some && key_of(bref(bo, i2, k2)) == key_of(#[trigger] bref(bo, i3, k3))
                implies !single_key(g, rv, bref(bo, i2, k2), false) by {
            assert(!single_clash(g, rv, ni + i2, k2, ni + i3, k3));
        }
    }
}

/// Every slot laid out for the graph inputs and outputs has the key and side
/// of one of their references.
proof fn lemma_boundary_named(g: GraphV, rv: Seq<RegV>, s1: Seq<Slot>, s2: Seq<Slot>, t: int)
    requires
        grown_named(Seq::empty(), s1, g.inputs, true, g.inputs.len() as int, 0),
        grown_named(s1, s2, g.outputs, false, g.outputs.len() as int, 0),
        grows(s1, s2),
        0 <= t < s2.len(),
    ensures
        exists|c: int, k: int|
            epos(g, c, k) && c < g.inputs.len() + g.outputs.len() && key_of(#[trigger] entry_refs(g, c)[k]) == Some(
                (s2[t].node@, s2[t].port@),
            ) && eside(g, rv, c, k) == s2[t].input,
{
    reveal(grown_named);
    lemma_positions(g, rv);
    let ni = g.inputs.len() as int;
    if grown(s1, s2, t) {
        assert(s2[t] == s2[t]);
        let (i2, k2) = choose|i2: int, k2: int|
            bpos(g.outputs, i2, k2) && before(i2, k2, g.outputs.len() as int, 0) && key_of(#[trigger] bref(g.outputs, i2, k2)) == Some(
                (s2[t].node@, s2[t].port@),
            );
        assert(key_of(entry_refs(g, ni + i2)[k2]) == Some((s2[t].node@, s2[t].port@)));
    } else {
        assert(s1[t] == s1[t]);
        assert(grown(Seq::empty(), s1, t));
        let (i2, k2) = choose|i2: int, k2: int|
            bpos(g.inputs, i2, k2) && before(i2, k2, g.inputs.len() as int, 0) && key_of(#[trigger] bref(g.inputs, i2, k2)) == Some(
                (s1[t].node@, s1[t].port@),
            );
        assert(s2[t].node@ == s1[t].node@ && s2[t].port@ == s1[t].port@ && s2[t].input == s1[t].input);
        assert(key_of(entry_refs(g, i2)[k2]) == Some((s2[t].node@, s2[t].port@)));
    }
}

/// A graph that can be laid out passes its connections, from the slots of its
/// graph inputs and outputs.
proof fn lemma_layout_connections(
    g: GraphV,
    rv: Seq<RegV>,
    ig: InferredGraph,
    ks: Seq<crate::type_infer::PortKeyV>,
    s1: Seq<Slot>,
    s2: Seq<Slot>,
)
    requires
        keys_view(ig.keys@) == ks,
        layout_ok(g, rv, ks),
        grown_named(Seq::empty(), s1, g.inputs, true, g.inputs.len() as int, 0),
        grown_named(s1, s2, g.outputs, false, g.outputs.len() as int, 0),
        grows(s1, s2),
    ensures
        conn_ok(g, rv, ig, s2, g.connections, (g.inputs.len() + g.outputs.len()) as int),
{
    reveal(conn_prefix_ok);
    lemma_positions(g, rv);
    let cv = g.connections;
    let base = (g.inputs.len() + g.outputs.len()) as int;
    let all = |a: int, b: int| true;
    assert forall|j: int, k: int| cpos(cv, j, k) && all(j, k) implies conn_ref_ok(g, rv, ig, base, cv, j, k) && #[trigger] cref(cv, j, k) == cref(cv, j, k) by {
        assert(eref_ok(g, rv, ks, base + j, k));
    }
    assert forall|j: int, k: int| cpos(cv, j, k) && all(j, k) implies old_free(g, rv, s2, #[trigger] cref(cv, j, k), cside(g, rv, base, cv, j, k)) by {
        let side = cside(g, rv, base, cv, j, k);
        if single_key(g, rv, cref(cv, j, k), side) {
            assert forall|t: int| 0 <= t < s2.len() && (#[trigger] s2[t]).input == side && key_of(cref(cv, j, k)) == Some((s2[t].node@, s2[t].port@))
                implies s2[t].endpoints@.len() == 0 by {
                lemma_boundary_named(g, rv, s1, s2, t);
                let (c2, k2) = choose|c2: int, k2: int|
                    epos(g, c2, k2) && c2 < g.inputs.len() + g.outputs.len() && key_of(#[trigger] entry_refs(g, c2)[k2]) == Some(
                        (s2[t].node@, s2[t].port@),
                    ) && eside(g, rv, c2, k2) == s2[t].input;
                assert(single_clash(g, rv, base + j, k, c2, k2));
            }
        }
    }
    assert forall|j: int, k: int, j2: int, k2: int|
        cpos(cv, j, k) && cpos(cv, j2, k2) && all(j, k) && all(j2, k2) && (j != j2 || k != k2) && key_of(#[trigger] cref(cv, j, k)) is Some
            && key_of(cref(cv, j, k)) == key_of(#[trigger] cref(cv, j2, k2)) && cside(g, rv, base, cv, j, k) == cside(g, rv, base, cv, j2, k2)
            implies !single_key(g, rv, cref(cv, j, k), cside(g, rv, base, cv, j, k)) by {
        assert(!single_clash(g, rv, base + j, k, base + j2, k2));
    }
    assert(conn_prefix_ok(g, rv, ig, s2, cv, base, all));
    assert forall|j: int| 0 <= j < cv.len() implies #[trigger] conn_sides(g, rv, base, cv, j) by {}
}

/// In a graph that can be laid out, every slot laid out is on a live port.
proof fn lemma_layout_slots(g: GraphV, rv: Seq<RegV>, ks: Seq<crate::type_infer::PortKeyV>, s1: Seq<Slot>, s2: Seq<Slot>, s3: Seq<Slot>)
    requires
        layout_ok(g, rv, ks),
        grown_named(Seq::empty(), s1, g.inputs, true, g.inputs.len() as int, 0),
        grown_named(s1, s2, g.outputs, false, g.outputs.len() as int, 0),
        grows(s1, s2),
        conn_grown_named(g, rv, s2, s3, g.connections, (g.inputs.len() + g.outputs.len()) as int, |a: int, b: int| true),
        grows(s2, s3),
    ensures
        forall|t: int| 0 <= t < s3.len() ==> slot_declared(g, rv, #[trigger] s3[t]),
{
    reveal(conn_grown_named);
    lemma_positions(g, rv);
    let base = (g.inputs.len() + g.outputs.len()) as int;
    let all = |a: int, b: int| true;
    assert forall|t: int| 0 <= t < s3.len() implies slot_declared(g, rv, #[trigger] s3[t]) by {
        if grown(s2, s3, t) {
            assert(named_in(g, rv, g.connections, base, all, s3[t]));
            let x = s3[t];
            let (j, k) = choose|j: int, k: int|
                cpos(g.connections, j, k) && all(j, k) && key_of(#[trigger] cref(g.connections, j, k)) == Some((x.node@, x.port@))
                    && cside(g, rv, base, g.connections, j, k) == x.input;
            assert(ref_live(g, rv, entry_refs(g, base + j)[k], eside(g, rv, base + j, k)));
        } else {
            lemma_boundary_named(g, rv, s1, s2, t);
            let (c2, k2) = choose|c2: int, k2: int|
                epos(g, c2, k2) && c2 < g.inputs.len() + g.outputs.len() && key_of(#[trigger] entry_refs(g, c2)[k2]) == Some(
                    (s2[t].node@, s2[t].port@),
                ) && eside(g, rv, c2, k2) == s2[t].input;
            assert(s3[t].node@ == s2[t].node@ && s3[t].port@ == s2[t].port@ && s3[t].input == s2[t].input);
            assert(ref_live(g, rv, entry_refs(g, c2)[k2], eside(g, rv, c2, k2)));
        }
    }
}

/// A refusal of the graph inputs names a fault of the graph.
proof fn lemma_inputs_refusal(g: GraphV, rv: Seq<RegV>, ks: Seq<crate::type_infer::PortKeyV>, x: ErrorV)
    requires
        match x {
            ErrorV::PortAlreadyConnected { node, port } => boundary_clash(g, rv, Seq::empty(), g.inputs, true, node, port),
            _ => layout_refusal(g, rv, ks, x),
        },
    ensures
        layout_refusal(g, rv, ks, x),
{
    lemma_positions(g, rv);
    if let ErrorV::PortAlreadyConnected { node, port } = x {
        let bi = g.inputs;
        let (i, k) = choose|i: int, k: int|
            bpos(bi, i, k) && key_of(#[trigger] bref(bi, i, k)) == Some((node, port)) && single_key(g, rv, bref(bi, i, k), true) && (
            (exists|i2: int, k2: int| bpos(bi, i2, k2) && (i2 != i || k2 != k) && key_of(#[trigger] bref(bi, i2, k2)) == Some((node, port)))
                || (exists|t: int|
                0 <= t < Seq::<Slot>::empty().len() && (#[trigger] Seq::<Slot>::empty()[t]).input == true && Seq::<Slot>::empty()[t].node@ == node
                    && Seq::<Slot>::empty()[t].port@ == port && Seq::<Slot>::empty()[t].endpoints@.len() > 0));
        let (i2, k2) = choose|i2: int, k2: int| bpos(bi, i2, k2) && (i2 != i || k2 != k) && key_of(#[trigger] bref(bi, i2, k2)) == Some((node, port));
        assert(single_clash(g, rv, i, k, i2, k2));
    }
}

/// A refusal of the graph outputs, laid out after the graph inputs, names a
/// fault of the graph.
proof fn lemma_outputs_refusal(g: GraphV, rv: Seq<RegV>, ks: Seq<crate::type_infer::PortKeyV>, s1: Seq<Slot>, x: ErrorV)
    requires
        grown_named(Seq::empty(), s1, g.inputs, true, g.inputs.len() as int, 0),
        match x {
            ErrorV::PortAlreadyConnected { node, port } => boundary_clash(g, rv, s1, g.outputs, false, node, port),
            _ => layout_refusal(g, rv, ks, x),
        },
    ensures
        layout_refusal(g, rv, ks, x),
{
    reveal(grown_named);
    lemma_positions(g, rv);
    let ni = g.inputs.len() as int;
    if let ErrorV::PortAlreadyConnected { node, port } = x {
        let bo = g.outputs;
        let (i, k) = choose|i: int, k: int|
            bpos(bo, i, k) && key_of(#[trigger] bref(bo, i, k)) == Some((node, port)) && single_key(g, rv, bref(bo, i, k), false) && (
            (exists|i2: int, k2: int| bpos(bo, i2, k2) && (i2 != i || k2 != k) && key_of(#[trigger] bref(bo, i2, k2)) == Some((node, port)))
                || (exists|t: int|
                0 <= t < s1.len() && (#[trigger] s1[t]).input == false && s1[t].node@ == node && s1[t].port@ == port && s1[t].endpoints@.len() > 0));
        if exists|t: int| 0 <= t < s1.len() && (#[trigger] s1[t]).input == false && s1[t].node@ == node && s1[t].port@ == port && s1[t].endpoints@.len() > 0 {
            let t = choose|t: int| 0 <= t < s1.len() && (#[trigger] s1[t]).input == false && s1[t].node@ == node && s1[t].port@ == port && s1[t].endpoints@.len() > 0;
            assert(grown(Seq::empty(), s1, t));
            assert(s1[t].input == true);
        } else {
            let (i2, k2) = choose|i2: int, k2: int| bpos(bo, i2, k2) && (i2 != i || k2 != k) && key_of(#[trigger] bref(bo, i2, k2)) == Some((node, port));
            assert(single_clash(g, rv, ni + i, k, ni + i2, k2));
        }
    }
}

/// A refusal of the connections, laid out after the graph inputs and
/// outputs, names a fault of the graph.
proof fn lemma_connections_refusal(g: GraphV, rv: Seq<RegV>, ks: Seq<crate::type_infer::PortKeyV>, s1: Seq<Slot>, s2: Seq<Slot>, x: ErrorV)
    requires
        grown_named(Seq::empty(), s1, g.inputs, true, g.inputs.len() as int, 0),
        grown_named(s1, s2, g.outputs, false, g.outputs.len() as int, 0),
        grows(s1, s2),
        match x {
            ErrorV::PortAlreadyConnected { node, port } => conn_clash(
                g,
                rv,
                s2,
                g.connections,
                (g.inputs.len() + g.outputs.len()) as int,
                node,
                port,
            ),
            _ => layout_refusal(g, rv, ks, x),
        },
    ensures
        layout_refusal(g, rv, ks, x),
{
    lemma_positions(g, rv);
    let base = (g.inputs.len() + g.outputs.len()) as int;
    if let ErrorV::PortAlreadyConnected { node, port } = x {
        let cv = g.connections;
        let (j, k) = choose|j: int, k: int|
            cpos(cv, j, k) && key_of(#[trigger] cref(cv, j, k)) == Some((node, port)) && single_key(g, rv, cref(cv, j, k), cside(g, rv, base, cv, j, k))
                && ((exists|j2: int, k2: int|
                cpos(cv, j2, k2) && (j2 != j || k2 != k) && key_of(#[trigger] cref(cv, j2, k2)) == Some((node, port)) && cside(g, rv, base, cv, j2, k2)
                    == cside(g, rv, base, cv, j, k)) || (exists|t: int|
                0 <= t < s2.len() && (#[trigger] s2[t]).input == cside(g, rv, base, cv, j, k) && s2[t].node@ == node && s2[t].port@ == port
                    && s2[t].endpoints@.len() > 0));
        let side = cside(g, rv, base, cv, j, k);
        if exists|t: int| 0 <= t < s2.len() && (#[trigger] s2[t]).input == side && s2[t].node@ == node && s2[t].port@ == port && s2[t].endpoints@.len() > 0 {
            let t = choose|t: int| 0 <= t < s2.len() && (#[trigger] s2[t]).input == side && s2[t].node@ == node && s2[t].port@ == port && s2[t].endpoints@.len() > 0;
            lemma_boundary_named(g, rv, s1, s2, t);
            let (c2, k2) = choose|c2: int, k2: int|
                epos(g, c2, k2) && c2 < g.inputs.len() + g.outputs.len() && key_of(#[trigger] entry_refs(g, c2)[k2]) == Some(
                    (s2[t].node@, s2[t].port@),
                ) && eside(g, rv, c2, k2) == s2[t].input;
            assert(single_clash(g, rv, base + j, k, c2, k2));
        } else {
            let (j2, k2) = choose|j2: int, k2: int|
                cpos(cv, j2, k2) && (j2 != j || k2 != k) && key_of(#[trigger] cref(cv, j2, k2)) == Some((node, port)) && cside(g, rv, base, cv, j2, k2)
                    == side;
            assert(single_clash(g, rv, base + j, k, base + j2, k2));
        }
    }
}

/// A refusal of the node plans, made after every reference was laid out,
/// names a fault of the graph.
proof fn lemma_nodes_refusal(
    g: GraphV,
    rv: Seq<RegV>,
    ks: Seq<crate::type_infer::PortKeyV>,
    s1: Seq<Slot>,
    s2: Seq<Slot>,
    s3: Seq<Slot>,
    x: ErrorV,
)
    requires
        grown_named(Seq::empty(), s1, g.inputs, true, g.inputs.len() as int, 0),
        grown_named(s1, s2, g.outputs, false, g.outputs.len() as int, 0),
        grows(s1, s2),
        conn_grown_named(g, rv, s2, s3, g.connections, (g.inputs.len() + g.outputs.len()) as int, |a: int, b: int| true),
        grows(s2, s3),
        slots_known(g, rv, s3),
        match x {
            ErrorV::UnknownNodeType(t) => find_spec(rv, t) is None && exists|i: int| 0 <= i < g.nodes.len() && (#[trigger] g.nodes[i]).ty == t,
            ErrorV::UnknownPort { node, port } => exists|t: int|
                0 <= t < s3.len() && (#[trigger] s3[t]).node@ == node && s3[t].port@ == port && !slot_declared(g, rv, s3[t]),
            _ => false,
        },
    ensures
        layout_refusal(g, rv, ks, x),
{
    reveal(conn_grown_named);
    lemma_positions(g, rv);
    let base = (g.inputs.len() + g.outputs.len()) as int;
    let all = |a: int, b: int| true;
    if let ErrorV::UnknownPort { node, port } = x {
        let t = choose|t: int| 0 <= t < s3.len() && (#[trigger] s3[t]).node@ == node && s3[t].port@ == port && !slot_declared(g, rv, s3[t]);
        assert(node_reg_spec(g, rv, s3[t].node@) is Some);
        if grown(s2, s3, t) {
            assert(named_in(g, rv, g.connections, base, all, s3[t]));
            let sx = s3[t];
            let (j, k) = choose|j: int, k: int|
                cpos(g.connections, j, k) && all(j, k) && key_of(#[trigger] cref(g.connections, j, k)) == Some((sx.node@, sx.port@))
                    && cside(g, rv, base, g.connections, j, k) == sx.input;
            assert(!ref_live(g, rv, entry_refs(g, base + j)[k], eside(g, rv, base + j, k)));
            assert(key_of(entry_refs(g, base + j)[k]) == Some((node, port)));
        } else {
            lemma_boundary_named(g, rv, s1, s2, t);
            let (c2, k2) = choose|c2: int, k2: int|
                epos(g, c2, k2) && c2 < g.inputs.len() + g.outputs.len() && key_of(#[trigger] entry_refs(g, c2)[k2]) == Some(
                    (s2[t].node@, s2[t].port@),
                ) && eside(g, rv, c2, k2) == s2[t].input;
            assert(s3[t].node@ == s2[t].node@ && s3[t].port@ == s2[t].port@ && s3[t].input == s2[t].input);
            assert(!ref_live(g, rv, entry_refs(g, c2)[k2], eside(g, rv, c2, k2)));
        }
    }
}

/// A graph whose layout stages all passed can be laid out.
proof fn lemma_layout_from_stages(
    g: GraphV,
    rv: Seq<RegV>,
    ig: InferredGraph,
    ks: Seq<crate::type_infer::PortKeyV>,
    s1: Seq<Slot>,
    s2: Seq<Slot>,
    s3: Seq<Slot>,
)
    requires
        keys_view(ig.keys@) == ks,
        boundary_ok(g, rv, ig, Seq::empty(), g.inputs, true),
        refs_held(s1, g.inputs, true, g.inputs.len() as int, 0),
        grows(s1, s2),
        boundary_ok(g, rv, ig, s1, g.outputs, false),
        refs_held(s2, g.outputs, false, g.outputs.len() as int, 0),
        grows(s2, s3),
        conn_ok(g, rv, ig, s2, g.connections, (g.inputs.len() + g.outputs.len()) as int),
        conn_held(g, rv, s3, g.connections, (g.inputs.len() + g.outputs.len()) as int, |a: int, b: int| true),
        types_known(g, rv),
        forall|t: int| 0 <= t < s3.len() ==> slot_declared(g, rv, #[trigger] s3[t]),
    ensures
        layout_ok(g, rv, ks),
{
    reveal(boundary_prefix_ok);
    reveal(refs_held);
    reveal(conn_prefix_ok);
    reveal(conn_held);
    lemma_positions(g, rv);
    let ni = g.inputs.len() as int;
    let base = (g.inputs.len() + g.outputs.len()) as int;
    let cv = g.connections;
    let all = |a: int, b: int| true;
    lemma_grows_trans(s1, s2, s3);
    assert forall|i: int| 0 <= i < g.inputs.len() implies (#[trigger] g.inputs[i]).ports.len() > 0 by {}
    assert forall|i: int| 0 <= i < g.outputs.len() implies (#[trigger] g.outputs[i]).ports.len() > 0 by {}
    assert forall|c: int, k: int| epos(g, c, k) implies #[trigger] eref_ok(g, rv, ks, c, k) by {
        lemma_position_of(g, c, k);
        if c < ni {
            assert(ref_ok(g, rv, ig, bref(g.inputs, c, k), true));
        } else if c < base {
            assert(ref_ok(g, rv, ig, bref(g.outputs, c - ni, k), false));
            assert(c == ni + (c - ni));
        } else {
            assert(all(c - base, k));
            assert(conn_ref_ok(g, rv, ig, base, cv, c - base, k));
            assert(c == base + (c - base));
        }
    }
    // every reference has an end in the final slots
    assert forall|c: int, k: int| epos(g, c, k) implies held(s3, #[trigger] entry_refs(g, c)[k], eside(g, rv, c, k)) by {
        lemma_position_of(g, c, k);
        if c < ni {
            assert(held(s1, bref(g.inputs, c, k), true));
            lemma_held_grows(s1, s3, bref(g.inputs, c, k), true);
        } else if c < base {
            assert(c == ni + (c - ni));
            assert(held(s2, bref(g.outputs, c - ni, k), false));
            if key_of(bref(g.outputs, c - ni, k)) is None {
                let r = bref(g.outputs, c - ni, k);
                let t = choose|t: int| 0 <= t < s2.len() && (#[trigger] s2[t]).input == false && key_of(r) == Some((s2[t].node@, s2[t].port@)) && s2[t].endpoints@.len() > 0;
            }
            lemma_held_grows(s2, s3, bref(g.outputs, c - ni, k), false);
        } else {
            assert(c == base + (c - base));
            assert(all(c - base, k));
            assert(held(s3, cref(cv, c - base, k), cside(g, rv, base, cv, c - base, k)));
        }
    }
    assert forall|c: int, k: int| epos(g, c, k) implies ref_live(g, rv, #[trigger] entry_refs(g, c)[k], eside(g, rv, c, k)) by {
        assert(held(s3, entry_refs(g, c)[k], eside(g, rv, c, k)));
        let r = entry_refs(g, c)[k];
        let sd = eside(g, rv, c, k);
        let t = choose|t: int| 0 <= t < s3.len() && (#[trigger] s3[t]).input == sd && key_of(r) == Some((s3[t].node@, s3[t].port@)) && s3[t].endpoints@.len() > 0;
        assert(slot_declared(g, rv, s3[t]));
    }
    assert forall|c: int, k: int, c2: int, k2: int| epos(g, c, k) && epos(g, c2, k2) implies !#[trigger] single_clash(g, rv, c, k, c2, k2) by {
        if single_clash(g, rv, c, k, c2, k2) {
            lemma_position_of(g, c, k);
            lemma_position_of(g, c2, k2);
            let sd = eside(g, rv, c, k);
            assert(single_key(g, rv, entry_refs(g, c2)[k2], sd));
            if c < ni && c2 < ni {
                assert(before(c, k, g.inputs.len() as int, 0) && before(c2, k2, g.inputs.len() as int, 0));
                assert(key_of(bref(g.inputs, c, k)) == key_of(bref(g.inputs, c2, k2)));
            } else if ni <= c < base && ni <= c2 < base {
                assert(c == ni + (c - ni) && c2 == ni + (c2 - ni));
                assert(before(c - ni, k, g.outputs.len() as int, 0) && before(c2 - ni, k2, g.outputs.len() as int, 0));
                assert(key_of(bref(g.outputs, c - ni, k)) == key_of(bref(g.outputs, c2 - ni, k2)));
            } else if base <= c && base <= c2 {
                assert(c == base + (c - base) && c2 == base + (c2 - base));
                assert(all(c - base, k) && all(c2 - base, k2));
                assert(key_of(cref(cv, c - base, k)) == key_of(cref(cv, c2 - base, k2)));
            } else if c < base && c2 < base {
                // one graph input and one graph output: the sides differ
                if c < ni {
                    assert(c2 == ni + (c2 - ni));
                } else {
                    assert(c == ni + (c - ni));
                }
            } else {
                // a graph input or output and a connection reference
                let (cb, kb, cc, kc) = if c < base { (c, k, c2, k2) } else { (c2, k2, c, k) };
                assert(cc == base + (cc - base));
                assert(all(cc - base, kc));
                let rc = cref(cv, cc - base, kc);
                assert(old_free(g, rv, s2, rc, sd));
                assert(single_key(g, rv, rc, sd));
                let rb = entry_refs(g, cb)[kb];
                if cb < ni {
                    assert(held(s1, bref(g.inputs, cb, kb), true));
                    lemma_held_grows(s1, s2, rb, true);
                } else {
                    assert(cb == ni + (cb - ni));
                    assert(held(s2, bref(g.outputs, cb - ni, kb), false));
                }
                assert(held(s2, rb, sd));
                let t = choose|t: int| 0 <= t < s2.len() && (#[trigger] s2[t]).input == sd && key_of(rb) == Some((s2[t].node@, s2[t].port@)) && s2[t].endpoints@.len() > 0;
                assert(s2[t].endpoints@.len() == 0);
            }
        }
    }
}

/// The boundary edges of a graph are as many as its boundary ports.
proof fn lemma_boundary_len(g: GraphV, ks: Seq<crate::type_infer::PortKeyV>, bs: Seq<PortV>, input: bool)
    ensures
        crate::type_infer::boundary_edges(g, ks, bs, input) matches Ok(es) ==> es.len() == bs.len(),
    decreases bs.len(),
{
    if bs.len() > 0 {
        lemma_boundary_len(g, ks, bs.drop_last(), input);
    }
}

/// The connection edges of a graph are as many as its connections.
proof fn lemma_connection_len(g: GraphV, ks: Seq<crate::type_infer::PortKeyV>, cs: Seq<ConnV>)
    ensures
        crate::type_infer::connection_edges(g, ks, cs) matches Ok(es) ==> es.len() == cs.len(),
    decreases cs.len(),
{
    if cs.len() > 0 {
        lemma_connection_len(g, ks, cs.drop_last());
    }
}

/// What a plan satisfies: one channel per graph input, graph output and
/// connection, in that order, with its capacity; each graph input and output
/// named with its channel; the node plans as [`nodes_ok`] says.
pub open spec fn plan_ok(g: GraphV, regs: Seq<RegV>, p: GraphPlan) -> bool {
    let ni = g.inputs.len();
    &&& p.channels@.len() == channel_count(g)
    &&& forall|c: int| 0 <= c < p.channels@.len() ==> (#[trigger] p.channels@[c]).cap == entry_cap(g, c)
        && !(p.channels@[c].ty is Template)
    &&& p.graph_inputs@.len() == ni
    &&& forall|i: int| 0 <= i < ni ==> (#[trigger] p.graph_inputs@[i]).0@ == g.inputs[i].name && p.graph_inputs@[i].1 == i
    &&& p.graph_outputs@.len() == g.outputs.len()
    &&& forall|i: int| 0 <= i < g.outputs.len() ==> (#[trigger] p.graph_outputs@[i]).0@ == g.outputs[i].name
        && p.graph_outputs@[i].1 == ni + i
    &&& nodes_ok(g, regs, p.nodes@, channel_count(g))
}

/// The channel types of a plan.
pub open spec fn channel_types(p: GraphPlan) -> Seq<MsgTypeId> {
    p.channels@.map_values(|c: ChannelPlan| c.ty)
}

/// Lays out the channels of one flat graph and the ends each node receives.
///
/// The graph is first inferred ([`infer`]); its refusals come first.  The
/// plan then follows [`plan_ok`] (every end a node receives comes from a
/// reference to that port, and a port that takes a single end receives
/// exactly one) and [`plan_complete`] (every reference reaches the port it
/// names).  A channel none of whose ends is declared
/// with a template parameter has the type its own ends choose
/// ([`edge_choice`]); when no port at all is declared with one, the channel
/// types are exactly the inferred ones ([`plain_inference`]); when every
/// end of every edge is declared with a template parameter, every channel
/// carries any payload.  Layout refuses a bad reference, an unknown node,
/// node type or port, a single port attached twice, a connection without
/// sender or receiver, or ends attached to a port that the node does not
/// declare (or declares as created at run time), and the error names such
/// a fault of the graph ([`layout_refusal`]): a port attached twice is
/// reported with its node and port.  Layout passes exactly when
/// [`layout_ok`] holds, so that on a graph that can be laid out the only
/// refusal left is a channel whose type cannot be chosen under a typing the
/// declarations allow.
pub fn assemble_graph<F>(g: &GraphConfig, regs: &Vec<NodeRegistration>, table: &ConversionTable<F>) -> (r: Result<
    GraphPlan,
    Error,
>)
    requires
        table.well_formed(),
        regs_wf(regs_view(regs@)),
    ensures
        graph_model(regs_view(regs@), g@) matches Err(e) ==> r matches Err(x) && x@ == e,
        r matches Ok(p) ==> plan_ok(g@, regs_view(regs@), p),
        r matches Ok(p) ==> plan_complete(g@, regs_view(regs@), p),
        r matches Ok(p) ==> match graph_model(regs_view(regs@), g@) {
            Ok((ks, ts, es)) => {
                &&& no_templates(ts) ==> plain_inference(pairs_of(table@), ts, es) == Ok::<Seq<MsgTypeId>, ErrorV>(
                    channel_types(p),
                )
                &&& forall|i: int|
                    0 <= i < es.len() && edge_plain(ts, es[i]) ==> edge_choice(pairs_of(table@), ts, es[i]) == Ok::<
                        MsgTypeId,
                        ErrorV,
                    >(#[trigger] channel_types(p)[i])
            },
            Err(_) => true,
        },
        graph_model(regs_view(regs@), g@) matches Ok((ks, ts, es)) ==> (r is Ok ==> layout_ok(g@, regs_view(regs@), ks)),
        graph_model(regs_view(regs@), g@) matches Ok((ks, ts, es)) ==> (layout_ok(g@, regs_view(regs@), ks) ==> (r matches Err(x)
            ==> x@ is ChannelTypeMismatch)),
        graph_model(regs_view(regs@), g@) matches Ok((ks, ts, es)) ==> (layout_ok(g@, regs_view(regs@), ks) && no_templates(ts)
            && plain_inference(pairs_of(table@), ts, es) is Ok ==> r is Ok),
        graph_model(regs_view(regs@), g@) matches Ok((ks, ts, es)) ==> (layout_ok(g@, regs_view(regs@), ks) && all_template_edges(ts, es)
            ==> (r matches Ok(p) && forall|c: int| 0 <= c < channel_types(p).len() ==> #[trigger] channel_types(p)[c] == MsgTypeId::Any)),
        graph_model(regs_view(regs@), g@) matches Ok((ks, ts, es)) ==> match inference(pairs_of(table@), ks, ts, es) {
            Err(x) => r matches Err(y) && y@ == x,
            Ok((cs, tys)) => {
                &&& r matches Ok(p) ==> channel_types(p) == cs
                &&& layout_ok(g@, regs_view(regs@), ks) ==> r is Ok
                &&& r matches Err(y) ==> layout_refusal(g@, regs_view(regs@), ks, y@)
            },
        },
        graph_model(regs_view(regs@), g@) matches Ok((ks, ts, es)) ==> (r matches Err(x) ==> {
            ||| x@ is ChannelTypeMismatch && exists|tys: Seq<MsgTypeId>, i: int|
                consistent_typing(ks, ts, tys) && 0 <= i < es.len() && #[trigger] edge_guess(pairs_of(table@), tys, es[i])
                    == Err::<MsgTypeId, ErrorV>(x@)
            ||| layout_refusal(g@, regs_view(regs@), ks, x@)
        }),
{
    let ig = match infer(g, regs, table) {
        Ok(ig) => ig,
        Err(e) => {
            return Err(e);
        },
    };
    proof {
        if let Ok((ks, ts, es)) = graph_model(regs_view(regs@), g@) {
            lemma_boundary_len(g@, ks, g@.inputs, true);
            lemma_boundary_len(g@, ks, g@.outputs, false);
            lemma_connection_len(g@, ks, g@.connections);
            crate::type_infer::lemma_keys_types_len(regs_view(regs@), g@);
        }
    }
    let mut channels: Vec<ChannelPlan> = Vec::new();
    let mut graph_inputs: Vec<(String, usize)> = Vec::new();
    let mut graph_outputs: Vec<(String, usize)> = Vec::new();
    let mut slots: Vec<Slot> = Vec::new();
    let ghost rv = regs_view(regs@);
    let ghost s0 = slots@;
    proof {
        assert(s0 =~= Seq::<Slot>::empty());
    }
    match lay_boundary(g, regs, &ig, true, &mut channels, &mut graph_inputs, &mut slots) {
        Ok(()) => {},
        Err(e) => {
            proof {
                if let Ok((ks, ts, es)) = graph_model(rv, g@) {
                    if layout_ok(g@, rv, ks) {
                        lemma_layout_boundaries(g@, rv, ig, ks, s0);
                    }
                    lemma_inputs_refusal(g@, rv, ks, e@);
                }
            }
            return Err(e);
        },
    }
    let ghost ch1 = channels@;
    let ghost s1 = slots@;
    match lay_boundary(g, regs, &ig, false, &mut channels, &mut graph_outputs, &mut slots) {
        Ok(()) => {},
        Err(e) => {
            proof {
                if let Ok((ks, ts, es)) = graph_model(rv, g@) {
                    if layout_ok(g@, rv, ks) {
                        lemma_layout_boundaries(g@, rv, ig, ks, s1);
                    }
                    lemma_outputs_refusal(g@, rv, ks, s1, e@);
                }
            }
            return Err(e);
        },
    }
    let ghost ch2 = channels@;
    let ghost s2 = slots@;
    match lay_connections(g, regs, &ig, &mut channels, &mut slots) {
        Ok(()) => {},
        Err(e) => {
            proof {
                if let Ok((ks, ts, es)) = graph_model(rv, g@) {
                    if layout_ok(g@, rv, ks) {
                        lemma_layout_connections(g@, rv, ig, ks, s1, s2);
                    }
                    lemma_connections_refusal(g@, rv, ks, s1, s2, e@);
                }
            }
            return Err(e);
        },
    }
    let ghost s3 = slots@;
    let nodes = match lay_nodes(g, regs, &slots, Ghost(channel_count(g@))) {
        Ok(ns) => ns,
        Err(e) => {
            proof {
                if let Ok((ks, ts, es)) = graph_model(rv, g@) {
                    if layout_ok(g@, rv, ks) {
                        lemma_layout_slots(g@, rv, ks, s1, s2, s3);
                    }
                    lemma_nodes_refusal(g@, rv, ks, s1, s2, s3, e@);
                }
            }
            return Err(e);
        },
    };
    proof {
        if let Ok((ks, ts, es)) = graph_model(rv, g@) {
            lemma_layout_from_stages(g@, rv, ig, ks, s1, s2, s3);
        }
    }
    let p = GraphPlan { channels, graph_inputs, graph_outputs, nodes };
    proof {
        assert forall|c: int| 0 <= c < p.channels@.len() implies (#[trigger] p.channels@[c]).cap == entry_cap(g@, c)
            && p.channels@[c].ty == ig.connections@[c] by {
            let ni = g@.inputs.len() as int;
            let no = g@.outputs.len() as int;
            if c < ni {
                assert(p.channels@[c] == ch2.take(ni + no)[c]);
                assert(ch2.take(ni + no)[c] == ch1.take(ni)[c]);
            } else if c < ni + no {
                assert(p.channels@[c] == ch2.take(ni + no)[c]);
            }
        }
        assert(channel_types(p) =~= ig.connections@);
        let rv = regs_view(regs@);
        assert forall|c: int, k: int| 0 <= c < channel_count(g@) && 0 <= k < entry_refs(g@, c).len() implies match port_parse_spec(
            #[trigger] entry_refs(g@, c)[k],
        ) {
            Some((node, port, tag)) => match first_index(g@.nodes, crate::subgraph::node_named(node)) {
                Some(i) => 0 <= i < p.nodes@.len() && reaches(side_groups(p.nodes@[i], ref_side(g@, rv, c, node, port)), port, c, tag_of(tag)),
                None => false,
            },
            None => false,
        } by {
            assert(ref_covered(g@, rv, slots@, c, k));
            if let Some((node, port, tag)) = port_parse_spec(entry_refs(g@, c)[k]) {
                let side = ref_side(g@, rv, c, node, port);
                let (s, m) = choose|s: int, m: int|
                    0 <= s < slots@.len() && 0 <= m < slots@[s].endpoints@.len() && slots@[s].node@ == node && slots@[s].port@
                        == port && slots@[s].input == side && (#[trigger] slots@[s].endpoints@[m]).channel == Some(c as usize)
                        && slots@[s].endpoints@[m].tag == tag_of(tag);
                let i0 = first_index(g@.nodes, crate::subgraph::node_named(slots@[s].node@))->0;
                let gs = side_groups(p.nodes@[i0], side);
                let j = choose|j: int|
                    0 <= j < gs.len() && (#[trigger] gs[j]).port@ == port && slots@[s].endpoints@.len() <= gs[j].endpoints@.len()
                        && forall|mm: int| 0 <= mm < slots@[s].endpoints@.len() ==> #[trigger] gs[j].endpoints@[mm] == slots@[s].endpoints@[mm];
                assert(gs[j].endpoints@[m] == slots@[s].endpoints@[m]);
            }
        }
    }
    Ok(p)
}

/// A planned graph wires only ports that the type of the named node
/// declares on the side the reference names, and none that is created at
/// run time: every reference names one of the live ports of the first node
/// of its name.
pub proof fn law_plan_wires_declared_ports(g: GraphV, regs: Seq<RegV>, p: GraphPlan, c: int, k: int)
    requires
        plan_ok(g, regs, p),
        plan_complete(g, regs, p),
        0 <= c < channel_count(g),
        0 <= k < entry_refs(g, c).len(),
    ensures
        match port_parse_spec(entry_refs(g, c)[k]) {
            Some((node, port, tag)) => match first_index(g.nodes, crate::subgraph::node_named(node)) {
                Some(i) => {
                    let r = regs[p.nodes@[i].reg as int];
                    if ref_side(g, regs, c, node, port) {
                        live_ports(r.inputs, r.input_dyn).contains(port)
                    } else {
                        live_ports(r.outputs, r.output_dyn).contains(port)
                    }
                },
                None => false,
            },
            None => false,
        },
{
    if let Some((node, port, tag)) = port_parse_spec(entry_refs(g, c)[k]) {
        if let Some(i) = first_index(g.nodes, crate::subgraph::node_named(node)) {
            let np = p.nodes@[i];
            let side = ref_side(g, regs, c, node, port);
            let gs = side_groups(np, side);
            let (j, m) = choose|j: int, m: int|
                0 <= j < gs.len() && 0 <= m < gs[j].endpoints@.len() && gs[j].port@ == port && (
                #[trigger] gs[j].endpoints@[m]).channel == Some(c as usize) && gs[j].endpoints@[m].tag == tag_of(tag);
            assert(group_ports(gs)[j] == port);
        }
    }
}

} // verus!
