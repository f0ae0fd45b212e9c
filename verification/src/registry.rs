//! What the graph layer knows of each registered node type: its name, its
//! port names in constructor order, the shape flags of each port and the
//! declared message type of each port.  The constructors themselves stay
//! with whoever registered the types.
use crate::interlayer::MsgTypeId;
use crate::search::{first_index, lemma_first_index};
use crate::text::str_eq;
use vstd::prelude::*;

verus! {

/// One registered node type, as the graph layer reads it.
pub struct NodeRegistration {
    /// the type name that configurations refer to
    pub name: String,
    /// input port names, in constructor order
    pub inputs: Vec<String>,
    /// output port names, in constructor order
    pub outputs: Vec<String>,
    /// per input port: keyed by tag
    pub input_dict: Vec<bool>,
    /// per output port: keyed by tag
    pub output_dict: Vec<bool>,
    /// per input port: a list of endpoints (fan-in)
    pub input_array: Vec<bool>,
    /// per output port: a list of endpoints (fan-out)
    pub output_array: Vec<bool>,
    /// per input port: created while the graph runs
    pub input_dyn: Vec<bool>,
    /// per output port: created while the graph runs
    pub output_dyn: Vec<bool>,
    /// declared message type of each input port
    pub input_types: Vec<MsgTypeId>,
    /// declared message type of each output port
    pub output_types: Vec<MsgTypeId>,
}

/// Mathematical view of a registration.
pub struct RegV {
    pub name: Seq<char>,
    pub inputs: Seq<Seq<char>>,
    pub outputs: Seq<Seq<char>>,
    pub input_dict: Seq<bool>,
    pub output_dict: Seq<bool>,
    pub input_array: Seq<bool>,
    pub output_array: Seq<bool>,
    pub input_dyn: Seq<bool>,
    pub output_dyn: Seq<bool>,
    pub input_types: Seq<MsgTypeId>,
    pub output_types: Seq<MsgTypeId>,
}

impl View for NodeRegistration {
    type V = RegV;

    open spec fn view(&self) -> RegV {
        RegV {
            name: self.name@,
            inputs: crate::text::strings_view(self.inputs@),
            outputs: crate::text::strings_view(self.outputs@),
            input_dict: self.input_dict@,
            output_dict: self.output_dict@,
            input_array: self.input_array@,
            output_array: self.output_array@,
            input_dyn: self.input_dyn@,
            output_dyn: self.output_dyn@,
            input_types: self.input_types@,
            output_types: self.output_types@,
        }
    }
}

/// A predicate for a name.
pub open spec fn is_name(n: Seq<char>) -> spec_fn(Seq<char>) -> bool {
    |x: Seq<char>| x == n
}

/// The flag of the first port named `port`, read defensively: `false` when
/// there is no such port or the flag list is shorter.
pub open spec fn flag_of(names: Seq<Seq<char>>, flags: Seq<bool>, port: Seq<char>) -> bool {
    match first_index(names, is_name(port)) {
        Some(i) => 0 <= i < flags.len() && flags[i],
        None => false,
    }
}

/// Whether the first port named `port`, if any, has a flag (so that reading
/// it directly does not fail).
pub open spec fn flag_present(names: Seq<Seq<char>>, flags: Seq<bool>, port: Seq<char>) -> bool {
    match first_index(names, is_name(port)) {
        Some(i) => i < flags.len(),
        None => true,
    }
}

/// The position of the first name equal to `port`.
pub fn position_of(names: &Vec<String>, port: &str) -> (r: Option<usize>)
    ensures
        r matches Some(i) ==> i < names@.len() && first_index(
            crate::text::strings_view(names@),
            is_name(port@),
        ) == Some(i as int),
        r is None ==> first_index(crate::text::strings_view(names@), is_name(port@)) is None,
{
    let ghost ns = crate::text::strings_view(names@);
    proof {
        lemma_first_index(ns, is_name(port@));
    }
    let mut i: usize = 0;
    while i < names.len()
        invariant
            ns == crate::text::strings_view(names@),
            i <= names@.len(),
            forall|j: int| 0 <= j < i ==> ns[j] != port@,
        decreases names@.len() - i,
    {
        proof {
            assert(ns[i as int] == names@[i as int]@);
        }
        if str_eq(names[i].as_str(), port) {
            proof {
                crate::search::lemma_first_index_is(ns, is_name(port@), i as int);
            }
            return Some(i);
        }
        i += 1;
    }
    proof {
        lemma_first_index(ns, is_name(port@));
        if let Some(k) = first_index(ns, is_name(port@)) {
            assert(ns[k] != port@);
        }
    }
    None
}

impl NodeRegistration {
    /// Whether the named input port is keyed by tag (`false` when unknown).
    pub fn input_is_dict(&self, port: &str) -> (r: bool)
        ensures
            r == flag_of(self@.inputs, self@.input_dict, port@),
    {
        match position_of(&self.inputs, port) {
            Some(i) => i < self.input_dict.len() && self.input_dict[i],
            None => false,
        }
    }

    /// Whether the named output port is keyed by tag (`false` when unknown).
    pub fn output_is_dict(&self, port: &str) -> (r: bool)
        ensures
            r == flag_of(self@.outputs, self@.output_dict, port@),
    {
        match position_of(&self.outputs, port) {
            Some(i) => i < self.output_dict.len() && self.output_dict[i],
            None => false,
        }
    }

    /// Whether the named input port takes a list of endpoints (`false` when unknown).
    /// The array flags are read directly, so the named port must have one.
    pub fn input_is_array(&self, port: &str) -> (r: bool)
        requires
            flag_present(self@.inputs, self@.input_array, port@),
        ensures
            r == flag_of(self@.inputs, self@.input_array, port@),
    {
        match position_of(&self.inputs, port) {
            Some(i) => self.input_array[i],
            None => false,
        }
    }

    /// Whether the named output port takes a list of endpoints (`false` when unknown).
    /// The array flags are read directly, so the named port must have one.
    pub fn output_is_array(&self, port: &str) -> (r: bool)
        requires
            flag_present(self@.outputs, self@.output_array, port@),
        ensures
            r == flag_of(self@.outputs, self@.output_array, port@),
    {
        match position_of(&self.outputs, port) {
            Some(i) => self.output_array[i],
            None => false,
        }
    }

    /// Whether the named input port is created while the graph runs (`false` when unknown).
    pub fn input_is_dyn(&self, port: &str) -> (r: bool)
        ensures
            r == flag_of(self@.inputs, self@.input_dyn, port@),
    {
        match position_of(&self.inputs, port) {
            Some(i) => i < self.input_dyn.len() && self.input_dyn[i],
            None => false,
        }
    }

    /// Whether the named output port is created while the graph runs (`false` when unknown).
    pub fn output_is_dyn(&self, port: &str) -> (r: bool)
        ensures
            r == flag_of(self@.outputs, self@.output_dyn, port@),
    {
        match position_of(&self.outputs, port) {
            Some(i) => i < self.output_dyn.len() && self.output_dyn[i],
            None => false,
        }
    }
}

/// The views of a list of registrations.
pub open spec fn regs_view(rs: Seq<NodeRegistration>) -> Seq<RegV> {
    rs.map_values(|r: NodeRegistration| r@)
}

/// A predicate for a registration's type name.
pub open spec fn reg_named(name: Seq<char>) -> spec_fn(RegV) -> bool {
    |r: RegV| r.name == name
}

/// The first registration of a type name, if any.
pub open spec fn find_spec(regs: Seq<RegV>, name: Seq<char>) -> Option<int> {
    first_index(regs, reg_named(name))
}

/// Looks up the registration of a node type by name (the first one, when a
/// name was registered more than once).
pub fn find<'a>(regs: &'a Vec<NodeRegistration>, name: &str) -> (r: Option<&'a NodeRegistration>)
    ensures
        match find_spec(regs_view(regs@), name@) {
            Some(i) => r matches Some(x) && x@ == regs_view(regs@)[i],
            None => r is None,
        },
{
    match find_index(regs, name) {
        Some(i) => Some(&regs[i]),
        None => None,
    }
}

/// The position of the registration of a node type.
pub fn find_index(regs: &Vec<NodeRegistration>, name: &str) -> (r: Option<usize>)
    ensures
        r matches Some(i) ==> i < regs@.len() && find_spec(regs_view(regs@), name@) == Some(i as int),
        r is None ==> find_spec(regs_view(regs@), name@) is None,
{
    let ghost rv = regs_view(regs@);
    proof {
        lemma_first_index(rv, reg_named(name@));
    }
    let mut i: usize = 0;
    while i < regs.len()
        invariant
            rv == regs_view(regs@),
            i <= regs@.len(),
            forall|j: int| 0 <= j < i ==> rv[j].name != name@,
        decreases regs@.len() - i,
    {
        proof {
            assert(rv[i as int] == regs@[i as int]@);
        }
        if str_eq(regs[i].name.as_str(), name) {
            proof {
                crate::search::lemma_first_index_is(rv, reg_named(name@), i as int);
            }
            return Some(i);
        }
        i += 1;
    }
    proof {
        lemma_first_index(rv, reg_named(name@));
        if let Some(k) = find_spec(rv, name@) {
            assert(rv[k].name != name@);
        }
    }
    None
}

/// A wired channel end with the address tag of the reference that wired it.
#[derive(Default)]
pub struct TaggedEndpoint<T> {
    pub tag: Option<u64>,
    pub endpoint: T,
}

impl<T> TaggedEndpoint<T> {
    /// An end with its tag.
    pub fn new(endpoint: T, tag: Option<u64>) -> (r: Self)
        ensures
            r.endpoint == endpoint,
            r.tag == tag,
    {
        TaggedEndpoint { tag, endpoint }
    }
}

} // verus!
