//! The conversion table, and the choice of a connection's message type.
//!
//! The table holds one conversion per directed pair of message types; a
//! later registration for a pair replaces the earlier one, and a lookup
//! answers only for pairs registered directly (no chains are derived).
//!
//! [`guess_channel_type`] picks the message type a connection carries from
//! the declared types of its sending and receiving ports.
use crate::error::{Error, ErrorV};
use crate::interlayer::MsgTypeId;
use crate::search::{first_index, lemma_first_index, lemma_first_index_is};
use vstd::prelude::*;

verus! {

/// A directed pair of message types: from, to.
pub type TypePair = (MsgTypeId, MsgTypeId);

/// One registered conversion.
pub struct ConversionEntry<F> {
    pub from: MsgTypeId,
    pub to: MsgTypeId,
    pub func: F,
}

/// The conversions registered so far, one per directed pair.
pub struct ConversionTable<F> {
    entries: Vec<ConversionEntry<F>>,
}

/// The map that a list of entries with distinct pairs stands for.
pub open spec fn entries_map<F>(es: Seq<ConversionEntry<F>>) -> Map<TypePair, F>
    decreases es.len(),
{
    if es.len() == 0 {
        Map::empty()
    } else {
        entries_map(es.drop_last()).insert((es.last().from, es.last().to), es.last().func)
    }
}

/// Whether no pair occurs twice.
pub open spec fn pairs_distinct<F>(es: Seq<ConversionEntry<F>>) -> bool {
    forall|i: int, j: int|
        0 <= i < j < es.len() ==> (es[i].from, es[i].to) != (es[j].from, es[j].to)
}

/// A pair is in the map exactly when some entry has it, and maps to that entry's function.
pub proof fn lemma_entries_map<F>(es: Seq<ConversionEntry<F>>)
    requires
        pairs_distinct(es),
    ensures
        forall|k: TypePair|
            entries_map(es).dom().contains(k) <==> exists|i: int|
                0 <= i < es.len() && (es[i].from, es[i].to) == k,
        forall|i: int|
            0 <= i < es.len() ==> entries_map(es).dom().contains((es[i].from, es[i].to))
                && #[trigger] entries_map(es)[(es[i].from, es[i].to)] == es[i].func,
    decreases es.len(),
{
    if es.len() > 0 {
        let t = es.drop_last();
        assert(pairs_distinct(t));
        lemma_entries_map(t);
        let n = es.len() - 1;
        assert forall|k: TypePair|
            entries_map(es).dom().contains(k) implies exists|i: int|
                0 <= i < es.len() && (es[i].from, es[i].to) == k by {
            assert(entries_map(es) == entries_map(t).insert((es[n].from, es[n].to), es[n].func));
            if k != (es[n].from, es[n].to) {
                assert(entries_map(t).dom().contains(k));
                let i = choose|i: int| 0 <= i < t.len() && (t[i].from, t[i].to) == k;
                assert(es[i] == t[i]);
                assert(0 <= i < es.len() && (es[i].from, es[i].to) == k);
            } else {
                assert(0 <= n < es.len() && (es[n].from, es[n].to) == k);
            }
        }
        assert forall|i: int|
            0 <= i < es.len() implies entries_map(es).dom().contains((es[i].from, es[i].to))
                && #[trigger] entries_map(es)[(es[i].from, es[i].to)] == es[i].func by {
            assert(entries_map(es) == entries_map(t).insert((es[n].from, es[n].to), es[n].func));
            if i < n {
                assert(t.len() == n);
                assert(es[i] == t[i]);
                assert((es[i].from, es[i].to) != (es[n].from, es[n].to));
                assert(entries_map(t).dom().contains((t[i].from, t[i].to)));
                assert(entries_map(t)[(t[i].from, t[i].to)] == t[i].func);
            }
        }
        assert forall|k: TypePair|
            (exists|i: int| 0 <= i < es.len() && (es[i].from, es[i].to) == k) implies entries_map(
                es,
            ).dom().contains(k) by {
            let i = choose|i: int| 0 <= i < es.len() && (es[i].from, es[i].to) == k;
            assert(entries_map(es)[(es[i].from, es[i].to)] == es[i].func);
        }
    }
}

impl<F> View for ConversionTable<F> {
    type V = Map<TypePair, F>;

    closed spec fn view(&self) -> Map<TypePair, F> {
        entries_map(self.entries@)
    }
}

impl<F> ConversionTable<F> {
    /// Whether the table keeps one entry per pair.
    pub closed spec fn well_formed(&self) -> bool {
        pairs_distinct(self.entries@)
    }

    /// An empty table.
    pub fn new() -> (r: Self)
        ensures
            r.well_formed(),
            r@ == Map::<TypePair, F>::empty(),
    {
        ConversionTable { entries: Vec::new() }
    }

    /// The position of the entry for a pair.
    fn position(&self, from: MsgTypeId, to: MsgTypeId) -> (r: Option<usize>)
        requires
            self.well_formed(),
        ensures
            match r {
                Some(i) => i < self.entries@.len() && self.entries@[i as int].from == from
                    && self.entries@[i as int].to == to,
                None => !self@.dom().contains((from, to)),
            },
    {
        proof {
            lemma_entries_map(self.entries@);
        }
        let mut i: usize = 0;
        while i < self.entries.len()
            invariant
                self.well_formed(),
                i <= self.entries@.len(),
                forall|j: int| 0 <= j < i ==> (self.entries@[j].from, self.entries@[j].to) != (from, to),
            decreases self.entries@.len() - i,
        {
            if self.entries[i].from == from && self.entries[i].to == to {
                return Some(i);
            }
            i += 1;
        }
        None
    }

    /// Whether a conversion is registered for the pair.
    pub fn contains(&self, from: MsgTypeId, to: MsgTypeId) -> (r: bool)
        requires
            self.well_formed(),
        ensures
            r == self@.dom().contains((from, to)),
    {
        proof {
            lemma_entries_map(self.entries@);
        }
        self.position(from, to).is_some()
    }
}

/// Registers `func` as the conversion from `from` to `to`; a later
/// registration for the same directed pair replaces the earlier one.
pub fn add_cvt_func_impl<F>(table: &mut ConversionTable<F>, from: MsgTypeId, to: MsgTypeId, func: F)
    requires
        old(table).well_formed(),
    ensures
        final(table).well_formed(),
        final(table)@ == old(table)@.insert((from, to), func),
{
    let ghost es = table.entries@;
    proof {
        lemma_entries_map(es);
    }
    match table.position(from, to) {
        Some(i) => {
            table.entries.set(i, ConversionEntry { from, to, func });
            proof {
                let ns = table.entries@;
                assert(pairs_distinct(ns)) by {
                    assert forall|a: int, b: int| 0 <= a < b < ns.len() implies (ns[a].from, ns[a].to) != (
                    ns[b].from, ns[b].to) by {
                        assert((ns[a].from, ns[a].to) == (es[a].from, es[a].to));
                        assert((ns[b].from, ns[b].to) == (es[b].from, es[b].to));
                    }
                }
                lemma_entries_map(ns);
                assert(entries_map(ns) =~= entries_map(es).insert((from, to), func)) by {
                    assert forall|k: TypePair| #[trigger] entries_map(ns).dom().contains(k)
                        <==> entries_map(es).insert((from, to), func).dom().contains(k) by {
                        if entries_map(es).dom().contains(k) {
                            let j = choose|j: int| 0 <= j < es.len() && (es[j].from, es[j].to) == k;
                            assert((ns[j].from, ns[j].to) == k);
                        }
                        if entries_map(ns).dom().contains(k) {
                            let j = choose|j: int| 0 <= j < ns.len() && (ns[j].from, ns[j].to) == k;
                            assert((es[j].from, es[j].to) == k);
                        }
                    }
                    assert forall|k: TypePair| #[trigger] entries_map(ns).dom().contains(k) implies entries_map(
                        ns,
                    )[k] == entries_map(es).insert((from, to), func)[k] by {
                        let j = choose|j: int| 0 <= j < ns.len() && (ns[j].from, ns[j].to) == k;
                        assert(entries_map(ns)[(ns[j].from, ns[j].to)] == ns[j].func);
                        if j != i {
                            assert(entries_map(es)[(es[j].from, es[j].to)] == es[j].func);
                        }
                    }
                }
            }
        },
        None => {
            table.entries.push(ConversionEntry { from, to, func });
            proof {
                let ns = table.entries@;
                assert(ns.drop_last() =~= es);
                assert(pairs_distinct(ns)) by {
                    assert forall|a: int, b: int| 0 <= a < b < ns.len() implies (ns[a].from, ns[a].to) != (
                    ns[b].from, ns[b].to) by {
                        if b == es.len() {
                            assert(ns[a] == es[a]);
                        } else {
                            assert(ns[a] == es[a]);
                            assert(ns[b] == es[b]);
                        }
                    }
                }
            }
        },
    }
}

/// The conversion registered for the pair, if any.
pub fn lookup<F: Copy>(table: &ConversionTable<F>, from: MsgTypeId, to: MsgTypeId) -> (r: Option<F>)
    requires
        table.well_formed(),
    ensures
        r == (if table@.dom().contains((from, to)) {
            Some(table@[(from, to)])
        } else {
            None
        }),
{
    proof {
        lemma_entries_map(table.entries@);
    }
    match table.position(from, to) {
        Some(i) => Some(table.entries[i].func),
        None => None,
    }
}

/// Any payload or a template parameter: a type that fixes nothing.
pub open spec fn is_abstract_type(t: MsgTypeId) -> bool {
    t is Any || t is Template
}

/// Every sender of the connection can reach `c`: it is `c`, or is
/// abstract, or a conversion to `c` is registered.
pub open spec fn accepts_all(conv: Map<TypePair, ()>, tx: Seq<MsgTypeId>, c: MsgTypeId) -> bool {
    forall|i: int|
        0 <= i < tx.len() && !is_abstract_type(#[trigger] tx[i]) ==> tx[i] == c || conv.dom().contains(
            (tx[i], c),
        )
}

/// `c` can reach every receiver of the connection: it is `c`, or is
/// abstract, or a conversion from `c` is registered.
pub open spec fn reaches_all(conv: Map<TypePair, ()>, rx: Seq<MsgTypeId>, c: MsgTypeId) -> bool {
    forall|i: int|
        0 <= i < rx.len() && !is_abstract_type(#[trigger] rx[i]) ==> rx[i] == c || conv.dom().contains(
            (c, rx[i]),
        )
}

/// A concrete type that every sender reaches and that reaches every receiver.
pub open spec fn fits_all(conv: Map<TypePair, ()>, tx: Seq<MsgTypeId>, rx: Seq<MsgTypeId>) -> spec_fn(
    MsgTypeId,
) -> bool {
    |c: MsgTypeId| !is_abstract_type(c) && accepts_all(conv, tx, c) && reaches_all(conv, rx, c)
}

/// A fitting type that is not a Python type.
pub open spec fn fits_all_native(conv: Map<TypePair, ()>, tx: Seq<MsgTypeId>, rx: Seq<MsgTypeId>) -> spec_fn(
    MsgTypeId,
) -> bool {
    |c: MsgTypeId| fits_all(conv, tx, rx)(c) && !(c is Python)
}

/// The registered pairs of a table, without their functions.
pub open spec fn pairs_of<F>(m: Map<TypePair, F>) -> Map<TypePair, ()> {
    Map::new(|k: TypePair| m.dom().contains(k), |k: TypePair| ())
}

/// The message type of a connection whose senders declare `tx` and whose
/// receivers declare `rx` (the candidates are taken senders first, in order):
/// - every end a template parameter (or no end at all): template inference failed;
/// - every end abstract: any payload;
/// - else the first candidate that fits every end, preferring a non-Python one;
/// - else no type fits.
pub open spec fn guess_spec(conv: Map<TypePair, ()>, tx: Seq<MsgTypeId>, rx: Seq<MsgTypeId>) -> Result<
    MsgTypeId,
    ErrorV,
> {
    let all = tx + rx;
    if forall|i: int| 0 <= i < all.len() ==> (#[trigger] all[i]) is Template {
        Err(ErrorV::TemplateInferFault)
    } else if forall|i: int| 0 <= i < all.len() ==> is_abstract_type(#[trigger] all[i]) {
        Ok(MsgTypeId::Any)
    } else {
        match first_index(all, fits_all_native(conv, tx, rx)) {
            Some(i) => Ok(all[i]),
            None => match first_index(all, fits_all(conv, tx, rx)) {
                Some(i) => Ok(all[i]),
                None => Err(ErrorV::ChannelTypeMismatch),
            },
        }
    }
}

/// Whether every sender reaches `c`.
fn check_accepts<F>(table: &ConversionTable<F>, tx: &Vec<MsgTypeId>, c: MsgTypeId) -> (r: bool)
    requires
        table.well_formed(),
    ensures
        r == accepts_all(pairs_of(table@), tx@, c),
{
    let mut i: usize = 0;
    while i < tx.len()
        invariant
            table.well_formed(),
            i <= tx@.len(),
            forall|j: int|
                0 <= j < i && !is_abstract_type(#[trigger] tx@[j]) ==> tx@[j] == c || pairs_of(
                    table@,
                ).dom().contains((tx@[j], c)),
        decreases tx@.len() - i,
    {
        let t = tx[i];
        if !t.is_abstract() && !(t == c) && !table.contains(t, c) {
            return false;
        }
        i += 1;
    }
    true
}

/// Whether `c` reaches every receiver.
fn check_reaches<F>(table: &ConversionTable<F>, rx: &Vec<MsgTypeId>, c: MsgTypeId) -> (r: bool)
    requires
        table.well_formed(),
    ensures
        r == reaches_all(pairs_of(table@), rx@, c),
{
    let mut i: usize = 0;
    while i < rx.len()
        invariant
            table.well_formed(),
            i <= rx@.len(),
            forall|j: int|
                0 <= j < i && !is_abstract_type(#[trigger] rx@[j]) ==> rx@[j] == c || pairs_of(
                    table@,
                ).dom().contains((c, rx@[j])),
        decreases rx@.len() - i,
    {
        let t = rx[i];
        if !t.is_abstract() && !(t == c) && !table.contains(c, t) {
            return false;
        }
        i += 1;
    }
    true
}

/// Chooses the message type of a connection from the declared types of its
/// sending ports `tx` and receiving ports `rx`; see [`guess_spec`].
pub fn guess_channel_type<F>(tx: &Vec<MsgTypeId>, rx: &Vec<MsgTypeId>, table: &ConversionTable<F>) -> (r:
    Result<MsgTypeId, Error>)
    requires
        table.well_formed(),
    ensures
        match guess_spec(pairs_of(table@), tx@, rx@) {
            Ok(t) => r == Ok::<MsgTypeId, Error>(t),
            Err(e) => r matches Err(x) && x@ == e,
        },
{
    let ghost conv = pairs_of(table@);
    let mut all: Vec<MsgTypeId> = Vec::new();
    let mut i: usize = 0;
    while i < tx.len()
        invariant
            i <= tx@.len(),
            all@ == tx@.take(i as int),
        decreases tx@.len() - i,
    {
        all.push(tx[i]);
        i += 1;
        proof {
            assert(all@ =~= tx@.take(i as int));
        }
    }
    let mut i: usize = 0;
    while i < rx.len()
        invariant
            i <= rx@.len(),
            all@ == tx@ + rx@.take(i as int),
        decreases rx@.len() - i,
    {
        all.push(rx[i]);
        i += 1;
        proof {
            assert(all@ =~= tx@ + rx@.take(i as int));
        }
    }
    proof {
        assert(all@ =~= tx@ + rx@);
    }
    let ghost s = all@;
    let mut all_template = true;
    let mut all_abstract = true;
    let mut i: usize = 0;
    while i < all.len()
        invariant
            all@ == s,
            i <= s.len(),
            all_template == forall|j: int| 0 <= j < i ==> (#[trigger] s[j]) is Template,
            all_abstract == forall|j: int| 0 <= j < i ==> is_abstract_type(#[trigger] s[j]),
        decreases s.len() - i,
    {
        let t = all[i];
        if !t.is_template() {
            all_template = false;
        }
        if !t.is_abstract() {
            all_abstract = false;
        }
        i += 1;
    }
    if all_template {
        return Err(Error::TemplateInferFault);
    }
    if all_abstract {
        return Ok(MsgTypeId::Any);
    }
    let mut python: Option<usize> = None;
    let mut i: usize = 0;
    while i < all.len()
        invariant
            table.well_formed(),
            conv == pairs_of(table@),
            all@ == s,
            s == tx@ + rx@,
            i <= s.len(),
            forall|j: int| 0 <= j < i ==> !fits_all_native(conv, tx@, rx@)(#[trigger] s[j]),
            match python {
                Some(p) => p < i && fits_all(conv, tx@, rx@)(s[p as int]) && forall|j: int|
                    0 <= j < p ==> !fits_all(conv, tx@, rx@)(#[trigger] s[j]),
                None => forall|j: int| 0 <= j < i ==> !fits_all(conv, tx@, rx@)(#[trigger] s[j]),
            },
        decreases s.len() - i,
    {
        let c = all[i];
        if !c.is_abstract() && check_accepts(table, tx, c) && check_reaches(table, rx, c) {
            match c {
                MsgTypeId::Python(_) => {
                    if python.is_none() {
                        python = Some(i);
                    }
                },
                _ => {
                    proof {
                        lemma_first_index_is(s, fits_all_native(conv, tx@, rx@), i as int);
                    }
                    return Ok(c);
                },
            }
        }
        i += 1;
    }
    proof {
        lemma_first_index(s, fits_all_native(conv, tx@, rx@));
    }
    match python {
        Some(p) => {
            proof {
                lemma_first_index_is(s, fits_all(conv, tx@, rx@), p as int);
            }
            Ok(all[p])
        },
        None => {
            proof {
                lemma_first_index(s, fits_all(conv, tx@, rx@));
            }
            Err(Error::ChannelTypeMismatch)
        },
    }
}

/// After registering `f` for a pair, a lookup of that pair gives `f`, a
/// later registration for the same pair replaces it, and the opposite
/// direction is not registered by it.
pub proof fn law_conversion_registration<F>(
    m: Map<TypePair, F>,
    from: MsgTypeId,
    to: MsgTypeId,
    f: F,
    g: F,
)
    ensures
        m.insert((from, to), f).dom().contains((from, to)),
        m.insert((from, to), f)[(from, to)] == f,
        m.insert((from, to), f).insert((from, to), g)[(from, to)] == g,
        from != to ==> (m.insert((from, to), f).dom().contains((to, from)) == m.dom().contains((to, from))),
        forall|k: TypePair| k != (from, to) ==> #[trigger] m.insert((from, to), f).dom().contains(k) == m.dom().contains(k),
{
}

/// A chosen type is any payload or one of the declared types, and a chosen
/// concrete type is reachable from every sender and reaches every receiver.
/// Template inference fails exactly when every end is a template parameter.
pub proof fn law_guess_fits(conv: Map<TypePair, ()>, tx: Seq<MsgTypeId>, rx: Seq<MsgTypeId>)
    ensures
        guess_spec(conv, tx, rx) matches Ok(t) ==> t is Any || ((tx + rx).contains(t) && fits_all(conv, tx, rx)(t)),
        (guess_spec(conv, tx, rx) == Err::<MsgTypeId, ErrorV>(ErrorV::TemplateInferFault)) == (forall|i: int|
            0 <= i < (tx + rx).len() ==> (#[trigger] (tx + rx)[i]) is Template),
{
    let all = tx + rx;
    lemma_first_index(all, fits_all_native(conv, tx, rx));
    lemma_first_index(all, fits_all(conv, tx, rx));
    if let Some(i) = first_index(all, fits_all_native(conv, tx, rx)) {
        assert(all[i] == all[i]);
    }
}

} // verus!
