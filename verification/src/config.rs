//! Graph configuration: the typed form of a graph-topology description, and
//! the "node:port" references that wire it.
//!
//! The text form (TOML) is parsed outside the library; this module holds the
//! structures the parse produces, their mathematical views, and the pure
//! operations on them.
use crate::error::Error;
use crate::text::{clone_strings, lemma_split_once_of_join, owned, split_once_char, split_once_spec, str_eq, strings_view};
use vstd::prelude::*;

verus! {

/// Declares `toml::map::Map`, the table type that node arguments are kept in.
#[verifier::external_type_specification]
#[verifier::external_body]
#[verifier::reject_recursive_types(K)]
#[verifier::reject_recursive_types(V)]
pub struct ExTomlMap<K, V>(toml::map::Map<K, V>);

/// Declares `toml::Value`, one argument value.
#[verifier::external_type_specification]
#[verifier::external_body]
pub struct ExTomlValue(toml::Value);

/// A node's own arguments: every key of a node entry besides `name` and `ty`.
pub type Args = toml::map::Map<String, toml::Value>;

/// Copies an argument table: toml's `Clone` for `Map<String, Value>`, a
/// field-by-field copy, so the result is equal to the original.
#[verifier::external_body]
pub(crate) fn clone_args(a: &Args) -> (r: Args)
    ensures
        r == *a,
{
    a.clone()
}

/// One node instance: its name in the graph, its registered type name, and its arguments.
#[derive(Debug)]
pub struct NodeConfig {
    pub name: String,
    pub ty: String,
    pub args: Args,
}

/// One external port of a graph: its name, the channel capacity, and the
/// "node:port" references it is wired to.
#[derive(Debug)]
pub struct PortConfig {
    pub name: String,
    pub cap: usize,
    pub ports: Vec<String>,
}

/// One internal connection: a channel capacity and the "node:port" references on it.
#[derive(Debug)]
pub struct ConnConfig {
    pub cap: usize,
    pub ports: Vec<String>,
}

/// One shared resource of a graph: its name, its registered type name, and its arguments.
#[derive(Debug)]
pub struct ResourceConfig {
    pub name: String,
    pub ty: String,
    pub args: Args,
}

/// One graph: name, nodes, external inputs and outputs, internal connections, resources.
#[derive(Debug)]
pub struct GraphConfig {
    pub name: String,
    pub nodes: Vec<NodeConfig>,
    pub inputs: Vec<PortConfig>,
    pub outputs: Vec<PortConfig>,
    pub connections: Vec<ConnConfig>,
    pub resources: Vec<ResourceConfig>,
}

/// A whole configuration: the name of the entry graph and all graphs.
#[derive(Debug)]
pub struct Config {
    pub main: String,
    pub graphs: Vec<GraphConfig>,
}

/// Mathematical view of a node entry.
pub struct NodeV {
    pub name: Seq<char>,
    pub ty: Seq<char>,
    pub args: Args,
}

/// Mathematical view of an external port.
pub struct PortV {
    pub name: Seq<char>,
    pub cap: usize,
    pub ports: Seq<Seq<char>>,
}

/// Mathematical view of an internal connection.
pub struct ConnV {
    pub cap: usize,
    pub ports: Seq<Seq<char>>,
}

/// Mathematical view of a resource entry.
pub struct ResV {
    pub name: Seq<char>,
    pub ty: Seq<char>,
    pub args: Args,
}

/// Mathematical view of a graph.
pub struct GraphV {
    pub name: Seq<char>,
    pub nodes: Seq<NodeV>,
    pub inputs: Seq<PortV>,
    pub outputs: Seq<PortV>,
    pub connections: Seq<ConnV>,
    pub resources: Seq<ResV>,
}

/// Mathematical view of a configuration.
pub struct ConfigV {
    pub main: Seq<char>,
    pub graphs: Seq<GraphV>,
}

impl View for NodeConfig {
    type V = NodeV;

    open spec fn view(&self) -> NodeV {
        NodeV { name: self.name@, ty: self.ty@, args: self.args }
    }
}

impl View for PortConfig {
    type V = PortV;

    open spec fn view(&self) -> PortV {
        PortV { name: self.name@, cap: self.cap, ports: strings_view(self.ports@) }
    }
}

impl View for ConnConfig {
    type V = ConnV;

    open spec fn view(&self) -> ConnV {
        ConnV { cap: self.cap, ports: strings_view(self.ports@) }
    }
}

impl View for ResourceConfig {
    type V = ResV;

    open spec fn view(&self) -> ResV {
        ResV { name: self.name@, ty: self.ty@, args: self.args }
    }
}

pub open spec fn nodes_view(s: Seq<NodeConfig>) -> Seq<NodeV> {
    s.map_values(|n: NodeConfig| n@)
}

pub open spec fn ports_view(s: Seq<PortConfig>) -> Seq<PortV> {
    s.map_values(|p: PortConfig| p@)
}

pub open spec fn conns_view(s: Seq<ConnConfig>) -> Seq<ConnV> {
    s.map_values(|c: ConnConfig| c@)
}

pub open spec fn resources_view(s: Seq<ResourceConfig>) -> Seq<ResV> {
    s.map_values(|r: ResourceConfig| r@)
}

impl View for GraphConfig {
    type V = GraphV;

    open spec fn view(&self) -> GraphV {
        GraphV {
            name: self.name@,
            nodes: nodes_view(self.nodes@),
            inputs: ports_view(self.inputs@),
            outputs: ports_view(self.outputs@),
            connections: conns_view(self.connections@),
            resources: resources_view(self.resources@),
        }
    }
}

pub open spec fn graphs_view(s: Seq<GraphConfig>) -> Seq<GraphV> {
    s.map_values(|g: GraphConfig| g@)
}

impl View for Config {
    type V = ConfigV;

    open spec fn view(&self) -> ConfigV {
        ConfigV { main: self.main@, graphs: graphs_view(self.graphs@) }
    }
}

impl Clone for NodeConfig {
    fn clone(&self) -> (r: Self)
        ensures
            r@ == self@,
    {
        NodeConfig { name: self.name.clone(), ty: self.ty.clone(), args: clone_args(&self.args) }
    }
}

impl Clone for PortConfig {
    fn clone(&self) -> (r: Self)
        ensures
            r@ == self@,
    {
        let ports = clone_strings(&self.ports);
        proof {
            assert(strings_view(ports@) =~= strings_view(self.ports@));
        }
        PortConfig { name: self.name.clone(), cap: self.cap, ports }
    }
}

impl Clone for ConnConfig {
    fn clone(&self) -> (r: Self)
        ensures
            r@ == self@,
    {
        let ports = clone_strings(&self.ports);
        proof {
            assert(strings_view(ports@) =~= strings_view(self.ports@));
        }
        ConnConfig { cap: self.cap, ports }
    }
}

impl Clone for ResourceConfig {
    fn clone(&self) -> (r: Self)
        ensures
            r@ == self@,
    {
        ResourceConfig { name: self.name.clone(), ty: self.ty.clone(), args: clone_args(&self.args) }
    }
}

/// Clones a list of node entries.
pub fn clone_nodes(v: &Vec<NodeConfig>) -> (r: Vec<NodeConfig>)
    ensures
        nodes_view(r@) == nodes_view(v@),
{
    let mut r: Vec<NodeConfig> = Vec::new();
    let mut i: usize = 0;
    while i < v.len()
        invariant
            i <= v@.len(),
            r@.len() == i,
            forall|j: int| 0 <= j < i ==> r@[j]@ == v@[j]@,
        decreases v@.len() - i,
    {
        r.push(v[i].clone());
        i += 1;
    }
    proof {
        assert(nodes_view(r@) =~= nodes_view(v@));
    }
    r
}

/// Clones a list of external ports.
pub fn clone_ports(v: &Vec<PortConfig>) -> (r: Vec<PortConfig>)
    ensures
        ports_view(r@) == ports_view(v@),
{
    let mut r: Vec<PortConfig> = Vec::new();
    let mut i: usize = 0;
    while i < v.len()
        invariant
            i <= v@.len(),
            r@.len() == i,
            forall|j: int| 0 <= j < i ==> r@[j]@ == v@[j]@,
        decreases v@.len() - i,
    {
        r.push(v[i].clone());
        i += 1;
    }
    proof {
        assert(ports_view(r@) =~= ports_view(v@));
    }
    r
}

/// Clones a list of connections.
pub fn clone_conns(v: &Vec<ConnConfig>) -> (r: Vec<ConnConfig>)
    ensures
        conns_view(r@) == conns_view(v@),
{
    let mut r: Vec<ConnConfig> = Vec::new();
    let mut i: usize = 0;
    while i < v.len()
        invariant
            i <= v@.len(),
            r@.len() == i,
            forall|j: int| 0 <= j < i ==> r@[j]@ == v@[j]@,
        decreases v@.len() - i,
    {
        r.push(v[i].clone());
        i += 1;
    }
    proof {
        assert(conns_view(r@) =~= conns_view(v@));
    }
    r
}

/// Clones a list of resource entries.
pub fn clone_resources(v: &Vec<ResourceConfig>) -> (r: Vec<ResourceConfig>)
    ensures
        resources_view(r@) == resources_view(v@),
{
    let mut r: Vec<ResourceConfig> = Vec::new();
    let mut i: usize = 0;
    while i < v.len()
        invariant
            i <= v@.len(),
            r@.len() == i,
            forall|j: int| 0 <= j < i ==> r@[j]@ == v@[j]@,
        decreases v@.len() - i,
    {
        r.push(v[i].clone());
        i += 1;
    }
    proof {
        assert(resources_view(r@) =~= resources_view(v@));
    }
    r
}

impl Clone for GraphConfig {
    fn clone(&self) -> (r: Self)
        ensures
            r@ == self@,
    {
        GraphConfig {
            name: self.name.clone(),
            nodes: clone_nodes(&self.nodes),
            inputs: clone_ports(&self.inputs),
            outputs: clone_ports(&self.outputs),
            connections: clone_conns(&self.connections),
            resources: clone_resources(&self.resources),
        }
    }
}

pub proof fn lemma_nodes_view_push(v: Seq<NodeConfig>, x: NodeConfig)
    ensures
        nodes_view(v.push(x)) == nodes_view(v).push(x@),
{
    assert(nodes_view(v.push(x)) =~= nodes_view(v).push(x@));
}

pub proof fn lemma_conns_view_push(v: Seq<ConnConfig>, x: ConnConfig)
    ensures
        conns_view(v.push(x)) == conns_view(v).push(x@),
{
    assert(conns_view(v.push(x)) =~= conns_view(v).push(x@));
}

pub proof fn lemma_ports_view_push(v: Seq<PortConfig>, x: PortConfig)
    ensures
        ports_view(v.push(x)) == ports_view(v).push(x@),
{
    assert(ports_view(v.push(x)) =~= ports_view(v).push(x@));
}

/// Index of the first graph named `name`, if any.
pub open spec fn first_graph_named(gs: Seq<GraphV>, name: Seq<char>) -> Option<int>
    decreases gs.len(),
{
    if gs.len() == 0 {
        None
    } else if gs[0].name == name {
        Some(0)
    } else {
        match first_graph_named(gs.drop_first(), name) {
            Some(i) => Some(i + 1),
            None => None,
        }
    }
}

pub proof fn lemma_first_graph_named(gs: Seq<GraphV>, name: Seq<char>)
    ensures
        first_graph_named(gs, name) matches Some(i) ==> 0 <= i < gs.len() && gs[i].name == name
            && forall|j: int| 0 <= j < i ==> gs[j].name != name,
        first_graph_named(gs, name) is None ==> forall|j: int|
            0 <= j < gs.len() ==> gs[j].name != name,
    decreases gs.len(),
{
    if gs.len() > 0 && gs[0].name != name {
        lemma_first_graph_named(gs.drop_first(), name);
        assert forall|j: int| 1 <= j < gs.len() implies gs[j] == gs.drop_first()[j - 1] by {}
    }
}

impl Config {
    /// The entry graph: the first graph whose name is `main`; `None` when there is none.
    pub fn main_graph(&self) -> (r: Option<&GraphConfig>)
        ensures
            match first_graph_named(self@.graphs, self@.main) {
                Some(i) => r matches Some(g) && g@ == self@.graphs[i],
                None => r is None,
            },
    {
        proof {
            lemma_first_graph_named(self@.graphs, self@.main);
        }
        let mut i: usize = 0;
        while i < self.graphs.len()
            invariant
                i <= self.graphs@.len(),
                forall|j: int| 0 <= j < i ==> self@.graphs[j].name != self@.main,
            decreases self.graphs@.len() - i,
        {
            proof {
                assert(self@.graphs[i as int] == self.graphs@[i as int]@);
            }
            if str_eq(self.graphs[i].name.as_str(), self.main.as_str()) {
                proof {
                    assert(self@.graphs[i as int].name == self@.main);
                    lemma_first_graph_named(self@.graphs, self@.main);
                    if let Some(k) = first_graph_named(self@.graphs, self@.main) {
                        if k < i {
                            assert(self@.graphs[k].name != self@.main);
                        } else if k > i {
                            assert(self@.graphs[i as int].name != self@.main);
                        }
                    }
                }
                return Some(&self.graphs[i]);
            }
            i += 1;
        }
        None
    }
}

/// A "node:port" reference split into its two halves, borrowed from the reference text.
#[derive(Debug, Clone, Copy)]
pub struct PortRef<'a> {
    pub node: &'a str,
    pub port: &'a str,
}

/// The halves of a well-formed "node:port" reference: split at the first ':',
/// both halves non-empty.  `None` when the reference is malformed.
pub open spec fn port_ref_spec(s: Seq<char>) -> Option<(Seq<char>, Seq<char>)> {
    match split_once_spec(s, ':') {
        Some((node, port)) => if node.len() > 0 && port.len() > 0 {
            Some((node, port))
        } else {
            None
        },
        None => None,
    }
}

impl<'a> PortRef<'a> {
    /// Parses "node:port".  A missing ':' or an empty side gives
    /// `Err(BadPortRef(s))`.
    pub fn parse(s: &'a str) -> (r: Result<PortRef<'a>, Error>)
        ensures
            match port_ref_spec(s@) {
                Some((node, port)) => r matches Ok(p) && p.node@ == node && p.port@ == port,
                None => r matches Err(Error::BadPortRef(m)) && m@ == s@,
            },
    {
        match split_once_char(s, ':') {
            Some((node, port)) => {
                if node.is_empty() || port.is_empty() {
                    Err(Error::BadPortRef(owned(s)))
                } else {
                    Ok(PortRef { node, port })
                }
            },
            None => Err(Error::BadPortRef(owned(s))),
        }
    }
}

/// Round trip: a reference written as `node + ":" + port`, with a non-empty
/// node holding no ':' and a non-empty port, parses back to its two halves.
pub proof fn law_port_ref_round_trip(node: Seq<char>, port: Seq<char>)
    requires
        node.len() > 0,
        port.len() > 0,
        !node.contains(':'),
    ensures
        port_ref_spec(node + seq![':'] + port) == Some((node, port)),
{
    lemma_split_once_of_join(node, ':', port);
}

} // verus!
