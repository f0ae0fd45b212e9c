//! The decisions behind the node and conversion macros, taken on plain values.
//!
//! A conversion function is accepted only when it is a plain function of one
//! argument with a declared result.  The port attributes read a list such as
//! `inp, outs[]`: port names separated by commas, a trailing `[...]` marking a
//! list port.  From such a list the attributes inject one receiver or sender
//! field per port (and, for inputs, the closed flag).  The node derives sort
//! the fields of a node by their type text into outputs (a `Sender` in the
//! type), inputs (a `Receiver`), the closed flag and construction arguments,
//! each list-valued when the type mentions `Vec`.  Lifecycle methods the user
//! did not write are added, and a user `exec` is wrapped.
use vstd::prelude::*;
use crate::text::{chars_of, owned, split_once_char, split_once_spec, str_eq, strings_view, trim, trim_spec, lemma_first_index_of};

verus! {

broadcast use vstd::seq_lib::group_seq_properties;

/// What the conversion macro reads of a function signature.
pub struct CvtSignature {
    pub is_async: bool,
    pub is_unsafe: bool,
    pub has_abi: bool,
    pub n_generics: usize,
    pub n_inputs: usize,
    /// the single argument is a `self` receiver
    pub takes_self: bool,
    /// the result type is written out
    pub has_return: bool,
}

/// Why a conversion function is refused.
#[derive(PartialEq, Eq, Structural, Clone, Copy, Debug)]
pub enum SignatureError {
    /// not a safe, synchronous, non-generic function of exactly one argument
    NotPlain,
    /// the argument is `self`
    TakesSelf,
    /// no result type is declared
    NoReturnType,
}

/// A safe, synchronous, non-generic function of exactly one argument.
pub open spec fn plain_signature(sig: CvtSignature) -> bool {
    !sig.is_async && !sig.is_unsafe && !sig.has_abi && sig.n_generics == 0 && sig.n_inputs == 1
}

/// Whether a conversion function is accepted, and if not, why: the shape
/// is checked first, then the argument, then the result type.
pub fn check_cvt_signature(sig: &CvtSignature) -> (r: Result<(), SignatureError>)
    ensures
        r is Ok <==> plain_signature(*sig) && !sig.takes_self && sig.has_return,
        !plain_signature(*sig) ==> r == Err::<(), SignatureError>(SignatureError::NotPlain),
        plain_signature(*sig) && sig.takes_self ==> r == Err::<(), SignatureError>(SignatureError::TakesSelf),
        plain_signature(*sig) && !sig.takes_self && !sig.has_return ==> r == Err::<(), SignatureError>(
            SignatureError::NoReturnType,
        ),
{
    if sig.is_async || sig.is_unsafe || sig.has_abi || sig.n_generics != 0 || sig.n_inputs != 1 {
        Err(SignatureError::NotPlain)
    } else if sig.takes_self {
        Err(SignatureError::TakesSelf)
    } else if !sig.has_return {
        Err(SignatureError::NoReturnType)
    } else {
        Ok(())
    }
}

/// One port of a port attribute: its name, and whether it is a list port.
pub struct PortSpec {
    pub name: String,
    pub array: bool,
}

/// A port list that does not follow the grammar; `piece` is the first
/// comma-separated piece that is not a port.
pub struct PortSpecError {
    pub piece: String,
}

/// A character that may begin a name.
pub open spec fn ident_start(c: char) -> bool {
    ('a' <= c && c <= 'z') || ('A' <= c && c <= 'Z') || c == '_'
}

/// A character that may continue a name.
pub open spec fn ident_continue(c: char) -> bool {
    ident_start(c) || ('0' <= c && c <= '9')
}

/// A name: a letter or `_`, then letters, digits or `_`; `_` alone is none.
pub open spec fn is_ident(s: Seq<char>) -> bool {
    &&& s.len() > 0
    &&& ident_start(s[0])
    &&& forall|i: int| 1 <= i < s.len() ==> ident_continue(#[trigger] s[i])
    &&& s != seq!['_']
}

/// The pieces of `s` between occurrences of `sep`, in order.
pub open spec fn split_all(s: Seq<char>, sep: char) -> Seq<Seq<char>>
    decreases s.len(),
{
    match split_once_spec(s, sep) {
        Some((a, b)) => {
            proof {
                lemma_first_index_of(s, sep);
            }
            seq![a] + split_all(b, sep)
        },
        None => seq![s],
    }
}

/// One piece of a port list: a name, or a name followed by `[...]` for a list
/// port, with white space around either part.
pub open spec fn port_item_spec(t: Seq<char>) -> Option<(Seq<char>, bool)> {
    let u = trim_spec(t);
    match split_once_spec(u, '[') {
        None => if is_ident(u) {
            Some((u, false))
        } else {
            None
        },
        Some((n, rest)) => if is_ident(trim_spec(n)) && rest.len() > 0 && rest.last() == ']' {
            Some((trim_spec(n), true))
        } else {
            None
        },
    }
}

/// The pieces of a port list that must be ports: all of them, but a blank
/// last piece after a comma (a trailing comma) is dropped.
pub open spec fn port_items(s: Seq<char>) -> Seq<Seq<char>> {
    let ps = split_all(s, ',');
    if trim_spec(ps.last()).len() == 0 {
        ps.drop_last()
    } else {
        ps
    }
}

/// The ports of a port list, or `None` when it does not follow the grammar.
/// A blank list has no port.
pub open spec fn port_specs_spec(s: Seq<char>) -> Option<Seq<(Seq<char>, bool)>> {
    let ps = split_all(s, ',');
    if ps.len() == 1 && trim_spec(ps[0]).len() == 0 {
        Some(Seq::empty())
    } else if forall|i: int| 0 <= i < port_items(s).len() ==> (#[trigger] port_item_spec(port_items(s)[i])) is Some {
        Some(port_items(s).map_values(|t: Seq<char>| port_item_spec(t)->0))
    } else {
        None
    }
}

/// A split has at least one piece.
proof fn lemma_split_all_len(s: Seq<char>, sep: char)
    ensures
        split_all(s, sep).len() >= 1,
{
    reveal_with_fuel(split_all, 2);
}

/// The pieces of `s` between occurrences of `sep`.
fn split_pieces<'a>(s: &'a str, sep: char) -> (r: Vec<&'a str>)
    ensures
        r@.map_values(|x: &str| x@) == split_all(s@, sep),
{
    let mut out: Vec<&'a str> = Vec::new();
    let mut rest: &'a str = s;
    loop
        invariant_except_break
            out@.map_values(|x: &str| x@) + split_all(rest@, sep) == split_all(s@, sep),
        ensures
            out@.map_values(|x: &str| x@) == split_all(s@, sep),
        decreases rest@.len(),
    {
        match split_once_char(rest, sep) {
            Some((a, b)) => {
                let ghost o0 = out@.map_values(|x: &str| x@);
                proof {
                    lemma_first_index_of(rest@, sep);
                    assert(split_all(rest@, sep) == seq![a@] + split_all(b@, sep));
                }
                out.push(a);
                proof {
                    assert(out@.map_values(|x: &str| x@) =~= o0.push(a@));
                    assert(o0.push(a@) + split_all(b@, sep) =~= o0 + (seq![a@] + split_all(b@, sep)));
                }
                rest = b;
            },
            None => {
                let ghost o0 = out@.map_values(|x: &str| x@);
                proof {
                    assert(split_all(rest@, sep) == seq![rest@]);
                }
                out.push(rest);
                proof {
                    assert(out@.map_values(|x: &str| x@) =~= o0 + seq![rest@]);
                }
                break ;
            },
        }
    }
    out
}

/// Whether `s` is a name.
fn is_ident_str(s: &str) -> (r: bool)
    ensures
        r == is_ident(s@),
{
    let cs = chars_of(s);
    if cs.len() == 0 {
        return false;
    }
    let c0 = cs[0];
    if !(('a' <= c0 && c0 <= 'z') || ('A' <= c0 && c0 <= 'Z') || c0 == '_') {
        return false;
    }
    if cs.len() == 1 && c0 == '_' {
        proof {
            assert(s@ =~= seq!['_']);
        }
        return false;
    }
    let mut i: usize = 1;
    while i < cs.len()
        invariant
            cs@ == s@,
            1 <= i <= cs@.len(),
            forall|j: int| 1 <= j < i ==> ident_continue(#[trigger] cs@[j]),
        decreases cs@.len() - i,
    {
        let c = cs[i];
        if !(('a' <= c && c <= 'z') || ('A' <= c && c <= 'Z') || c == '_' || ('0' <= c && c <= '9')) {
            proof {
                assert(!ident_continue(s@[i as int]));
            }
            return false;
        }
        i += 1;
    }
    proof {
        if s@ == seq!['_'] {
            assert(s@.len() == 1);
        }
    }
    true
}

/// Whether `s` holds only white space.
fn is_blank(s: &str) -> (r: bool)
    ensures
        r == (trim_spec(s@).len() == 0),
{
    let t = trim(s);
    let cs = chars_of(t);
    cs.len() == 0
}

/// One piece of a port list as a port.
fn parse_port_item(t: &str) -> (r: Option<PortSpec>)
    ensures
        match port_item_spec(t@) {
            Some((n, a)) => r matches Some(p) && p.name@ == n && p.array == a,
            None => r is None,
        },
{
    let u = trim(t);
    match split_once_char(u, '[') {
        None => {
            if is_ident_str(u) {
                Some(PortSpec { name: owned(u), array: false })
            } else {
                None
            }
        },
        Some((n, rest)) => {
            let n2 = trim(n);
            let rc = chars_of(rest);
            if is_ident_str(n2) && rc.len() > 0 && rc[rc.len() - 1] == ']' {
                Some(PortSpec { name: owned(n2), array: true })
            } else {
                None
            }
        },
    }
}

/// Reads a port list such as `inp, outs[]`: the ports in order, or the first
/// piece that is not a port.
pub fn parse_port_specs(s: &str) -> (r: Result<Vec<PortSpec>, PortSpecError>)
    ensures
        match port_specs_spec(s@) {
            Some(ps) => r matches Ok(v) && v@.len() == ps.len() && forall|i: int|
                0 <= i < ps.len() ==> (#[trigger] v@[i]).name@ == ps[i].0 && v@[i].array == ps[i].1,
            None => r matches Err(e) && exists|i: int|
                0 <= i < port_items(s@).len() && port_item_spec(#[trigger] port_items(s@)[i]) is None && e.piece@ == port_items(s@)[i]
                    && forall|j: int| 0 <= j < i ==> port_item_spec(#[trigger] port_items(s@)[j]) is Some,
        },
{
    let pieces = split_pieces(s, ',');
    let ghost ps = split_all(s@, ',');
    proof {
        lemma_split_all_len(s@, ',');
        assert(pieces@.len() == ps.len());
        assert forall|i: int| 0 <= i < ps.len() implies ps[i] == (#[trigger] pieces@[i])@ by {
            assert(pieces@.map_values(|x: &str| x@)[i] == pieces@[i]@);
        }
    }
    if pieces.len() == 1 && is_blank(pieces[0]) {
        return Ok(Vec::new());
    }
    let mut n = pieces.len();
    if is_blank(pieces[n - 1]) {
        n = n - 1;
    }
    let ghost items = port_items(s@);
    proof {
        assert(items.len() == n);
        assert forall|i: int| 0 <= i < n implies items[i] == (#[trigger] pieces@[i])@ by {}
    }
    let mut out: Vec<PortSpec> = Vec::new();
    let mut k: usize = 0;
    while k < n
        invariant
            n <= pieces@.len(),
            items == port_items(s@),
            items.len() == n,
            forall|i: int| 0 <= i < n ==> items[i] == (#[trigger] pieces@[i])@,
            k <= n,
            out@.len() == k,
            forall|j: int| 0 <= j < k ==> port_item_spec(#[trigger] items[j]) is Some,
            forall|j: int| 0 <= j < k ==> Some(((#[trigger] out@[j]).name@, out@[j].array)) == port_item_spec(items[j]),
            !(split_all(s@, ',').len() == 1 && trim_spec(split_all(s@, ',')[0]).len() == 0),
        decreases n - k,
    {
        proof {
            assert(items[k as int] == pieces@[k as int]@);
        }
        match parse_port_item(pieces[k]) {
            Some(p) => {
                out.push(p);
            },
            None => {
                proof {
                    assert(port_item_spec(items[k as int]) is None);
                    assert(!(forall|i: int| 0 <= i < items.len() ==> (#[trigger] port_item_spec(items[i])) is Some));
                }
                return Err(PortSpecError { piece: owned(pieces[k]) });
            },
        }
        k += 1;
    }
    proof {
        assert(forall|i: int| 0 <= i < items.len() ==> (#[trigger] port_item_spec(items[i])) is Some);
    }
    Ok(out)
}

/// The fields that the inputs attribute injects, in order: one receiver per
/// port (a `Vec` of receivers for a list port), then the closed flag.
pub fn injected_inputs(specs: &Vec<PortSpec>) -> (r: Vec<(String, String)>)
    ensures
        r@.len() == specs@.len() + 1,
        forall|i: int|
            0 <= i < specs@.len() ==> (#[trigger] r@[i]).0@ == specs@[i].name@ && r@[i].1@ == (if specs@[i].array {
                "Vec<Receiver>"@
            } else {
                "Receiver"@
            }),
        r@[specs@.len() as int].0@ == "input_closed"@,
        r@[specs@.len() as int].1@ == "bool"@,
{
    let mut r: Vec<(String, String)> = Vec::new();
    let mut i: usize = 0;
    while i < specs.len()
        invariant
            i <= specs@.len(),
            r@.len() == i,
            forall|j: int|
                0 <= j < i ==> (#[trigger] r@[j]).0@ == specs@[j].name@ && r@[j].1@ == (if specs@[j].array {
                    "Vec<Receiver>"@
                } else {
                    "Receiver"@
                }),
        decreases specs@.len() - i,
    {
        let ty = if specs[i].array { owned("Vec<Receiver>") } else { owned("Receiver") };
        r.push((specs[i].name.clone(), ty));
        i += 1;
    }
    r.push((owned("input_closed"), owned("bool")));
    r
}

/// The fields that the outputs attribute injects, in order: one sender slot
/// per port (a `Vec` of senders for a list port, an optional sender otherwise).
pub fn injected_outputs(specs: &Vec<PortSpec>) -> (r: Vec<(String, String)>)
    ensures
        r@.len() == specs@.len(),
        forall|i: int|
            0 <= i < specs@.len() ==> (#[trigger] r@[i]).0@ == specs@[i].name@ && r@[i].1@ == (if specs@[i].array {
                "Vec<Sender>"@
            } else {
                "Option<Sender>"@
            }),
{
    let mut r: Vec<(String, String)> = Vec::new();
    let mut i: usize = 0;
    while i < specs.len()
        invariant
            i <= specs@.len(),
            r@.len() == i,
            forall|j: int|
                0 <= j < i ==> (#[trigger] r@[j]).0@ == specs@[j].name@ && r@[j].1@ == (if specs@[j].array {
                    "Vec<Sender>"@
                } else {
                    "Option<Sender>"@
                }),
        decreases specs@.len() - i,
    {
        let ty = if specs[i].array { owned("Vec<Sender>") } else { owned("Option<Sender>") };
        r.push((specs[i].name.clone(), ty));
        i += 1;
    }
    r
}

/// The role of a node field, by its name and type text.
#[derive(PartialEq, Eq, Structural, Clone, Copy, Debug)]
pub enum FieldRole {
    /// the type mentions `Sender`: an output port, a list when it mentions `Vec`
    Output { array: bool },
    /// the type mentions `Receiver`: an input port, a list when it mentions `Vec`
    Input { array: bool },
    /// the closed flag
    Flag,
    /// a construction argument, read from the node's configuration
    Arg,
}

/// `t` without its spaces.
pub open spec fn no_spaces(t: Seq<char>) -> Seq<char> {
    t.filter(|c: char| c != ' ')
}

/// `w` occurs in `t`.
pub open spec fn contains_text(t: Seq<char>, w: Seq<char>) -> bool {
    exists|i: int| 0 <= i && i + w.len() <= t.len() && #[trigger] t.subrange(i, i + w.len()) == w
}

/// The type text, spaces left out, mentions `w`.
pub open spec fn mentions(ty: Seq<char>, w: Seq<char>) -> bool {
    contains_text(no_spaces(ty), w)
}

/// The role of a field: a sender comes before a receiver, and the closed
/// flag is the field `input_closed` that is neither.
pub open spec fn role_spec(name: Seq<char>, ty: Seq<char>) -> FieldRole {
    if mentions(ty, "Sender"@) {
        FieldRole::Output { array: mentions(ty, "Vec"@) }
    } else if mentions(ty, "Receiver"@) {
        FieldRole::Input { array: mentions(ty, "Vec"@) }
    } else if name == "input_closed"@ {
        FieldRole::Flag
    } else {
        FieldRole::Arg
    }
}

/// Whether the type text, spaces left out, mentions `w`.
pub fn type_mentions(ty: &str, w: &str) -> (r: bool)
    ensures
        r == mentions(ty@, w@),
{
    let cs = chars_of(ty);
    let ws = chars_of(w);
    let ghost pred = |c: char| c != ' ';
    let mut t: Vec<char> = Vec::new();
    let mut i: usize = 0;
    proof {
        assert(cs@.take(0).filter(pred) =~= Seq::<char>::empty()) by {
            reveal(Seq::filter);
        }
    }
    while i < cs.len()
        invariant
            cs@ == ty@,
            i <= cs@.len(),
            pred == (|c: char| c != ' '),
            t@ == cs@.take(i as int).filter(pred),
        decreases cs@.len() - i,
    {
        proof {
            reveal(Seq::filter);
            assert(cs@.take(i + 1).drop_last() =~= cs@.take(i as int));
        }
        if cs[i] != ' ' {
            t.push(cs[i]);
        }
        i += 1;
    }
    proof {
        assert(cs@.take(i as int) =~= cs@);
        assert(t@ == no_spaces(ty@));
    }
    if ws.len() == 0 {
        proof {
            let z: int = 0;
            assert(t@.subrange(z, z + w@.len()) =~= w@);
        }
        return true;
    }
    if ws.len() > t.len() {
        proof {
            assert forall|p: int| 0 <= p && p + ws@.len() <= t@.len() implies #[trigger] t@.subrange(p, p + ws@.len()) != w@ by {}
        }
        return false;
    }
    let tl = t.len();
    let last = tl - ws.len();
    let mut p: usize = 0;
    while p <= last
        invariant
            t@ == no_spaces(ty@),
            ws@ == w@,
            last == t@.len() - ws@.len(),
            ws@.len() <= t@.len(),
            ws@.len() >= 1,
            tl == t@.len(),
            forall|q: int| 0 <= q < p ==> #[trigger] t@.subrange(q, q + ws@.len()) != w@,
        decreases last + 1 - p,
    {
        let mut j: usize = 0;
        let mut same = true;
        while j < ws.len()
            invariant
                t@ == no_spaces(ty@),
                ws@ == w@,
                p <= last,
                last == t@.len() - ws@.len(),
                ws@.len() <= t@.len(),
                tl == t@.len(),
                j <= ws@.len(),
                same ==> forall|k: int| 0 <= k < j ==> t@[p + k] == ws@[k],
                !same ==> t@.subrange(p as int, p + ws@.len()) != w@,
            decreases ws@.len() - j,
        {
            if same && t[p + j] != ws[j] {
                proof {
                    assert(t@.subrange(p as int, p + ws@.len())[j as int] == t@[p + j]);
                }
                same = false;
            }
            j += 1;
        }
        if same {
            proof {
                assert(t@.subrange(p as int, p + ws@.len()) =~= w@);
            }
            return true;
        }
        p += 1;
    }
    false
}

/// The role of a node field.
pub fn field_role(name: &str, ty: &str) -> (r: FieldRole)
    ensures
        r == role_spec(name@, ty@),
{
    if type_mentions(ty, "Sender") {
        FieldRole::Output { array: type_mentions(ty, "Vec") }
    } else if type_mentions(ty, "Receiver") {
        FieldRole::Input { array: type_mentions(ty, "Vec") }
    } else if str_eq(name, "input_closed") {
        FieldRole::Flag
    } else {
        FieldRole::Arg
    }
}

/// What a node's fields come to: its input ports, its output ports (name
/// and list flag, in field order), its construction arguments in field order,
/// and whether it has the closed flag.
pub struct FieldPlan {
    pub inputs: Vec<(String, bool)>,
    pub outputs: Vec<(String, bool)>,
    pub args: Vec<String>,
    pub input_closed: bool,
}

/// The input ports among the fields, in order.
pub open spec fn inputs_of(fs: Seq<(String, String)>) -> Seq<(Seq<char>, bool)>
    decreases fs.len(),
{
    if fs.len() == 0 {
        Seq::empty()
    } else {
        let p = inputs_of(fs.drop_last());
        match role_spec(fs.last().0@, fs.last().1@) {
            FieldRole::Input { array } => p.push((fs.last().0@, array)),
            _ => p,
        }
    }
}

/// The output ports among the fields, in order.
pub open spec fn outputs_of(fs: Seq<(String, String)>) -> Seq<(Seq<char>, bool)>
    decreases fs.len(),
{
    if fs.len() == 0 {
        Seq::empty()
    } else {
        let p = outputs_of(fs.drop_last());
        match role_spec(fs.last().0@, fs.last().1@) {
            FieldRole::Output { array } => p.push((fs.last().0@, array)),
            _ => p,
        }
    }
}

/// The construction arguments among the fields, in order.
pub open spec fn args_of(fs: Seq<(String, String)>) -> Seq<Seq<char>>
    decreases fs.len(),
{
    if fs.len() == 0 {
        Seq::empty()
    } else {
        let p = args_of(fs.drop_last());
        match role_spec(fs.last().0@, fs.last().1@) {
            FieldRole::Arg => p.push(fs.last().0@),
            _ => p,
        }
    }
}

/// Sorts the fields (name, type text) of a node into input ports, output
/// ports and arguments, and finds the closed flag.
pub fn classify_fields(fields: &Vec<(String, String)>) -> (r: FieldPlan)
    ensures
        r.inputs@.map_values(|x: (String, bool)| (x.0@, x.1)) == inputs_of(fields@),
        r.outputs@.map_values(|x: (String, bool)| (x.0@, x.1)) == outputs_of(fields@),
        strings_view(r.args@) == args_of(fields@),
        r.input_closed == exists|i: int| 0 <= i < fields@.len() && role_spec((#[trigger] fields@[i]).0@, fields@[i].1@) == FieldRole::Flag,
{
    let mut inputs: Vec<(String, bool)> = Vec::new();
    let mut outputs: Vec<(String, bool)> = Vec::new();
    let mut args: Vec<String> = Vec::new();
    let mut flag = false;
    let mut i: usize = 0;
    while i < fields.len()
        invariant
            i <= fields@.len(),
            inputs@.map_values(|x: (String, bool)| (x.0@, x.1)) == inputs_of(fields@.take(i as int)),
            outputs@.map_values(|x: (String, bool)| (x.0@, x.1)) == outputs_of(fields@.take(i as int)),
            strings_view(args@) == args_of(fields@.take(i as int)),
            flag == exists|k: int| 0 <= k < i && role_spec((#[trigger] fields@[k]).0@, fields@[k].1@) == FieldRole::Flag,
        decreases fields@.len() - i,
    {
        let ghost fs = fields@.take(i + 1);
        proof {
            assert(fs.drop_last() =~= fields@.take(i as int));
            assert(fs.last() == fields@[i as int]);
        }
        let ghost i0 = inputs@.map_values(|x: (String, bool)| (x.0@, x.1));
        let ghost o0 = outputs@.map_values(|x: (String, bool)| (x.0@, x.1));
        let ghost a0 = strings_view(args@);
        let role = field_role(fields[i].0.as_str(), fields[i].1.as_str());
        match role {
            FieldRole::Output { array } => {
                outputs.push((fields[i].0.clone(), array));
                proof {
                    assert(outputs@.map_values(|x: (String, bool)| (x.0@, x.1)) =~= o0.push((fields@[i as int].0@, array)));
                }
            },
            FieldRole::Input { array } => {
                inputs.push((fields[i].0.clone(), array));
                proof {
                    assert(inputs@.map_values(|x: (String, bool)| (x.0@, x.1)) =~= i0.push((fields@[i as int].0@, array)));
                }
            },
            FieldRole::Flag => {
                flag = true;
            },
            FieldRole::Arg => {
                args.push(fields[i].0.clone());
                proof {
                    assert(strings_view(args@) =~= a0.push(fields@[i as int].0@));
                }
            },
        }
        proof {
            assert(inputs@.map_values(|x: (String, bool)| (x.0@, x.1)) =~= inputs_of(fs));
            assert(outputs@.map_values(|x: (String, bool)| (x.0@, x.1)) =~= outputs_of(fs));
            assert(strings_view(args@) =~= args_of(fs));
            if role == FieldRole::Flag {
                assert(role_spec(fields@[i as int].0@, fields@[i as int].1@) == FieldRole::Flag);
            }
        }
        i += 1;
    }
    proof {
        assert(fields@.take(i as int) =~= fields@);
    }
    FieldPlan { inputs, outputs, args, input_closed: flag }
}

/// What the methods attribute does to a node implementation: add the
/// lifecycle methods the user did not write, and wrap `exec` when written.
pub struct LifecyclePlan {
    pub add_initialize: bool,
    pub add_finalize: bool,
    pub wrap_exec: bool,
}

/// Whether one of the names is `name`.
fn has_name(names: &Vec<String>, name: &str) -> (r: bool)
    ensures
        r == strings_view(names@).contains(name@),
{
    let mut i: usize = 0;
    while i < names.len()
        invariant
            i <= names@.len(),
            forall|j: int| 0 <= j < i ==> names@[j]@ != name@,
        decreases names@.len() - i,
    {
        if str_eq(names[i].as_str(), name) {
            proof {
                assert(strings_view(names@)[i as int] == name@);
            }
            return true;
        }
        i += 1;
    }
    proof {
        if strings_view(names@).contains(name@) {
            let k = choose|k: int| 0 <= k < strings_view(names@).len() && strings_view(names@)[k] == name@;
            assert(names@[k]@ == name@);
        }
    }
    false
}

/// The plan for a node implementation whose methods have these names.
pub fn lifecycle_plan(methods: &Vec<String>) -> (r: LifecyclePlan)
    ensures
        r.add_initialize == !strings_view(methods@).contains("initialize"@),
        r.add_finalize == !strings_view(methods@).contains("finalize"@),
        r.wrap_exec == strings_view(methods@).contains("exec"@),
{
    LifecyclePlan {
        add_initialize: !has_name(methods, "initialize"),
        add_finalize: !has_name(methods, "finalize"),
        wrap_exec: has_name(methods, "exec"),
    }
}

} // verus!
