//! Message types and port descriptions: what the graph layer knows of the
//! payloads that flow on a connection, and of the ports at its ends.
use crate::envelope::{str2addr, str2addr_spec};
use crate::error::Error;
use crate::text::{concat2, default_str_hash, hash_str, owned, push_decimal, decimal_digits, split_once_char, split_once_spec, trim, trim_spec};
use std::any::TypeId;
use vstd::std_specs::cmp::PartialEqSpec;
use vstd::prelude::*;

verus! {

/// Declares std's `TypeId`, the identity of a Rust type.
#[verifier::external_type_specification]
#[verifier::external_body]
pub struct ExTypeId(TypeId);

/// The identity of the Rust type `T` (std's `TypeId::of`).
#[verifier::external_body]
pub(crate) fn type_id_of<T: ?Sized + 'static>() -> (r: TypeId) {
    TypeId::of::<T>()
}

/// Whether two type identities are the same (std's `==` on `TypeId`); equal
/// identities are the same value.
#[verifier::external_body]
pub(crate) fn type_ids_equal(a: &TypeId, b: &TypeId) -> (r: bool)
    ensures
        r == (*a == *b),
{
    *a == *b
}

/// The identity of a message type: any payload, a Rust type, a Python type
/// (by the hash of its name), or the `n`-th template parameter of a node.
#[derive(Clone, Copy, Debug, Hash)]
pub enum MsgTypeId {
    Any,
    Rust(TypeId),
    Python(u64),
    Template(usize),
}

impl PartialEq for MsgTypeId {
    fn eq(&self, other: &Self) -> (r: bool) {
        match (self, other) {
            (MsgTypeId::Any, MsgTypeId::Any) => true,
            (MsgTypeId::Rust(a), MsgTypeId::Rust(b)) => type_ids_equal(a, b),
            (MsgTypeId::Python(a), MsgTypeId::Python(b)) => *a == *b,
            (MsgTypeId::Template(a), MsgTypeId::Template(b)) => *a == *b,
            _ => false,
        }
    }
}

impl Eq for MsgTypeId {}

impl vstd::std_specs::cmp::PartialEqSpecImpl for MsgTypeId {
    open spec fn obeys_eq_spec() -> bool {
        true
    }

    open spec fn eq_spec(&self, other: &Self) -> bool {
        match (*self, *other) {
            (MsgTypeId::Any, MsgTypeId::Any) => true,
            (MsgTypeId::Rust(a), MsgTypeId::Rust(b)) => a == b,
            (MsgTypeId::Python(a), MsgTypeId::Python(b)) => a == b,
            (MsgTypeId::Template(a), MsgTypeId::Template(b)) => a == b,
            _ => false,
        }
    }
}

impl Default for MsgTypeId {
    /// The default identity is `Any`.
    fn default() -> (r: Self)
        ensures
            r == MsgTypeId::Any,
    {
        MsgTypeId::Any
    }
}

/// The identity of a Python type of the given name: the hash of the name
/// without surrounding white space.
pub open spec fn python_id(name: Seq<char>) -> MsgTypeId {
    MsgTypeId::Python(default_str_hash(trim_spec(name)))
}

impl MsgTypeId {
    /// The identity of the Rust type `T`.
    pub fn of<T: 'static>() -> (r: Self)
        ensures
            r is Rust,
    {
        MsgTypeId::Rust(type_id_of::<T>())
    }

    /// The identity of a Python type: its name is trimmed, then hashed.
    pub fn python(name: &str) -> (r: Self)
        ensures
            r == python_id(name@),
    {
        let name = trim(name);
        MsgTypeId::Python(hash_str(name))
    }

    /// Whether this is a template parameter.
    pub fn is_template(&self) -> (r: bool)
        ensures
            r == self is Template,
    {
        match self {
            MsgTypeId::Template(_) => true,
            _ => false,
        }
    }

    /// Whether this is abstract: any payload, or a template parameter.
    pub fn is_abstract(&self) -> (r: bool)
        ensures
            r == (self is Any || self is Template),
    {
        match self {
            MsgTypeId::Any => true,
            MsgTypeId::Template(_) => true,
            _ => false,
        }
    }
}

/// A message type: a readable name and its identity.
#[derive(Debug)]
pub struct MsgType {
    pub name: String,
    pub id: MsgTypeId,
}

/// Mathematical view of a message type.
pub struct MsgTypeV {
    pub name: Seq<char>,
    pub id: MsgTypeId,
}

impl View for MsgType {
    type V = MsgTypeV;

    open spec fn view(&self) -> MsgTypeV {
        MsgTypeV { name: self.name@, id: self.id }
    }
}

impl Clone for MsgType {
    fn clone(&self) -> (r: Self)
        ensures
            r@ == self@,
    {
        MsgType { name: self.name.clone(), id: self.id }
    }
}

impl MsgType {
    /// The type of any payload, named "Any".
    pub fn any() -> (r: Self)
        ensures
            r@.name == "Any"@,
            r@.id == MsgTypeId::Any,
    {
        MsgType { name: owned("Any"), id: MsgTypeId::Any }
    }

    /// The `id`-th template parameter, named "T" followed by `id` in decimal.
    pub fn template(id: usize) -> (r: Self)
        ensures
            r@.name == "T"@ + decimal_digits(id as nat),
            r@.id == MsgTypeId::Template(id),
    {
        let mut name = owned("T");
        push_decimal(&mut name, id);
        MsgType { name, id: MsgTypeId::Template(id) }
    }

    /// The Rust type `T`, under the readable name given for it (the caller
    /// passes std's name for `T`).
    pub fn of<T: 'static>(name: &str) -> (r: Self)
        ensures
            r@.name == name@,
            r@.id is Rust,
    {
        MsgType { name: owned(name), id: MsgTypeId::of::<T>() }
    }

    /// A Python type: the name without surrounding white space, and the
    /// identity of that name.
    pub fn python(name: &str) -> (r: Self)
        ensures
            r@.name == trim_spec(name@),
            r@.id == python_id(trim_spec(name@)),
    {
        let name = trim(name);
        MsgType { id: MsgTypeId::python(name), name: owned(name) }
    }
}

/// The shape of a port: one endpoint, a list of endpoints, endpoints keyed
/// by tag, or endpoints created while the graph runs.
#[derive(Clone, Copy, Debug, PartialEq, Eq, Structural)]
pub enum PortType {
    Unit,
    List,
    Dict,
    Dyn,
}

/// A port of a node type: its name, shape and message type.
#[derive(Debug)]
pub struct PortInfo {
    pub name: String,
    pub ty: PortType,
    pub mty: MsgType,
}

impl Clone for PortInfo {
    fn clone(&self) -> (r: Self)
        ensures
            r.name@ == self.name@,
            r.ty == self.ty,
            r.mty@ == self.mty@,
    {
        PortInfo { name: self.name.clone(), ty: self.ty, mty: self.mty.clone() }
    }
}

/// A port of a node instance in a graph, with the tag it was wired with.
#[derive(Debug)]
pub struct Port {
    pub node_type: String,
    pub node_name: String,
    pub port_info: PortInfo,
    pub port_tag: Option<u64>,
}

/// The parts of a port reference "node:port" or "node:port:tag": split at the
/// first two ':'; whatever follows the second ':' (more ':' included) is the
/// tag text.  No part is trimmed and parts may be empty.  `None` when the
/// reference holds no ':'.
pub open spec fn port_parse_spec(s: Seq<char>) -> Option<(Seq<char>, Seq<char>, Option<Seq<char>>)> {
    match split_once_spec(s, ':') {
        None => None,
        Some((node, rest)) => match split_once_spec(rest, ':') {
            None => Some((node, rest, None)),
            Some((port, tag)) => Some((node, port, Some(tag))),
        },
    }
}

impl Port {
    /// Splits a port reference into node name, port name and tag; the tag
    /// text becomes an address by [`str2addr`].  A reference without ':' is
    /// refused with `BadPortRef`.
    pub fn parse(name: &str) -> (r: Result<((&str, &str), Option<u64>), Error>)
        ensures
            match port_parse_spec(name@) {
                Some((node, port, tag)) => r matches Ok(((n, p), t)) && n@ == node && p@ == port
                    && t == (match tag {
                    Some(x) => Some(str2addr_spec(x)),
                    None => None,
                }),
                None => r matches Err(Error::BadPortRef(m)) && m@ == name@,
            },
    {
        match split_once_char(name, ':') {
            None => Err(Error::BadPortRef(owned(name))),
            Some((node, rest)) => match split_once_char(rest, ':') {
                None => Ok(((node, rest), None)),
                Some((port, tag)) => Ok(((node, port), Some(str2addr(tag)))),
            },
        }
    }

    /// Whether the port is created while the graph runs.
    pub fn is_dyn(&self) -> (r: bool)
        ensures
            r == (self.port_info.ty == PortType::Dyn),
    {
        match self.port_info.ty {
            PortType::Dyn => true,
            _ => false,
        }
    }
}

/// A reference written as `node + ":" + port + ":" + tag`, with no ':' in
/// the node or the port, parses back to its three parts.
pub proof fn law_port_parse_round_trip(node: Seq<char>, port: Seq<char>, tag: Seq<char>)
    requires
        !node.contains(':'),
        !port.contains(':'),
    ensures
        port_parse_spec(node + seq![':'] + port + seq![':'] + tag) == Some((node, port, Some(tag))),
{
    let s = node + seq![':'] + port + seq![':'] + tag;
    let rest = port + seq![':'] + tag;
    assert(s =~= node + seq![':'] + rest);
    crate::text::lemma_split_once_of_join(node, ':', rest);
    crate::text::lemma_split_once_of_join(port, ':', tag);
}

} // verus!
