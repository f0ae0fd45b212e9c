//! Resources shared by the nodes of a graph, looked up by name.
//!
//! A resource is built once and shared: the collection holds reference-counted
//! handles of any type that can cross threads, keyed by name; a node borrows
//! one back at its concrete type.  The type check goes through std's `Any`.
use crate::text::str_eq;
use std::any::Any;
use std::sync::Arc;
use vstd::prelude::*;

verus! {

broadcast use vstd::seq_lib::group_seq_properties;

/// A shared resource of any type that can cross threads: std's
/// `Arc<dyn Any + Send + Sync>`.
#[verifier::external_body]
pub struct AnyResource {
    inner: Arc<dyn Any + Send + Sync>,
}

impl AnyResource {
    /// Shares an existing reference-counted value (std's unsizing of `Arc<T>`).
    #[verifier::external_body]
    pub fn new<T: Send + Sync + 'static>(value: Arc<T>) -> (r: AnyResource) {
        AnyResource { inner: value }
    }
}

impl Clone for AnyResource {
    /// Another handle on the same value (std's `Arc::clone`).
    #[verifier::external_body]
    fn clone(&self) -> (r: Self)
        ensures
            r == *self,
    {
        AnyResource { inner: self.inner.clone() }
    }
}

/// The resource as an `Arc<T>`, or `None` when it is of another type
/// (std's `Arc::<dyn Any + Send + Sync>::downcast`).
#[verifier::external_body]
pub fn downcast_arc<T: Send + Sync + 'static>(r: AnyResource) -> (res: Option<Arc<T>>) {
    r.inner.downcast::<T>().ok()
}

/// One named resource.
pub struct ResourceEntry {
    pub name: String,
    pub value: AnyResource,
}

/// The names of a list of entries.
pub open spec fn entry_names(es: Seq<ResourceEntry>) -> Seq<Seq<char>> {
    es.map_values(|e: ResourceEntry| e.name@)
}

/// Whether an entry is the one of the name `name`.
pub open spec fn entry_named(name: Seq<char>) -> spec_fn(ResourceEntry) -> bool {
    |e: ResourceEntry| e.name@ == name
}

/// Whether a given pair carries the name `name`.
pub open spec fn pair_named(name: Seq<char>) -> spec_fn((String, AnyResource)) -> bool {
    |e: (String, AnyResource)| e.0@ == name
}

/// The named resources of a graph, one per name.
pub struct ResourceCollection {
    entries: Vec<ResourceEntry>,
}

impl View for ResourceCollection {
    type V = Set<Seq<char>>;

    /// The names that hold a resource.
    closed spec fn view(&self) -> Set<Seq<char>> {
        entry_names(self.entries@).to_set()
    }
}

impl ResourceCollection {
    /// The resource kept under `name`, if any.
    pub closed spec fn value_of(&self, name: Seq<char>) -> Option<AnyResource> {
        match crate::search::first_index(self.entries@, entry_named(name)) {
            Some(i) => Some(self.entries@[i].value),
            None => None,
        }
    }

    /// An empty collection.
    pub fn new() -> (r: Self)
        ensures
            r@ == Set::<Seq<char>>::empty(),
            forall|n: Seq<char>| #[trigger] r.value_of(n) is None,
    {
        let r = ResourceCollection { entries: Vec::new() };
        proof {
            assert(entry_names(r.entries@).to_set() =~= Set::empty());
        }
        r
    }

    /// The position of the entry of a name.
    fn position(&self, name: &str) -> (r: Option<usize>)
        ensures
            r matches Some(i) ==> i < self.entries@.len() && self.entries@[i as int].name@ == name@
                && self@.contains(name@) && forall|j: int| 0 <= j < i ==> #[trigger] self.entries@[j].name@ != name@,
            r is None ==> !self@.contains(name@),
    {
        let mut i: usize = 0;
        while i < self.entries.len()
            invariant
                i <= self.entries@.len(),
                forall|j: int| 0 <= j < i ==> self.entries@[j].name@ != name@,
            decreases self.entries@.len() - i,
        {
            if str_eq(self.entries[i].name.as_str(), name) {
                proof {
                    assert(entry_names(self.entries@)[i as int] == name@);
                }
                return Some(i);
            }
            i += 1;
        }
        proof {
            if entry_names(self.entries@).contains(name@) {
                let j = choose|j: int| 0 <= j < entry_names(self.entries@).len() && entry_names(self.entries@)[j] == name@;
                assert(self.entries@[j].name@ == name@);
            }
        }
        None
    }

    /// Keeps `value` under `name`, replacing what was kept there.
    pub fn insert(&mut self, name: String, value: AnyResource)
        ensures
            final(self)@ == old(self)@.insert(name@),
            final(self).value_of(name@) == Some(value),
            forall|n: Seq<char>| n != name@ ==> #[trigger] final(self).value_of(n) == old(self).value_of(n),
    {
        let ghost ns = entry_names(self.entries@);
        let ghost es0 = self.entries@;
        let ghost nn = name@;
        match self.position(name.as_str()) {
            Some(i) => {
                self.entries.set(i, ResourceEntry { name, value });
                proof {
                    assert(entry_names(self.entries@) =~= ns);
                    assert(ns[i as int] == nn);
                    assert(ns.to_set().insert(nn) =~= ns.to_set());
                    let es = self.entries@;
                    assert forall|j: int| 0 <= j < i implies !entry_named(nn)(es[j]) by {
                        assert(es[j] == es0[j]);
                    }
                    crate::search::lemma_first_index_is(es, entry_named(nn), i as int);
                    assert forall|n: Seq<char>| n != nn implies #[trigger] self.value_of(n) == old(self).value_of(n) by {
                        crate::search::lemma_first_index_same(es, entry_named(n), es0, entry_named(n));
                        crate::search::lemma_first_index(es0, entry_named(n));
                        if let Some(j) = crate::search::first_index(es0, entry_named(n)) {
                            assert(j != i);
                            assert(es[j] == es0[j]);
                        }
                    }
                }
            },
            None => {
                let ghost entry = ResourceEntry { name, value };
                self.entries.push(ResourceEntry { name, value });
                proof {
                    let n2 = entry_names(self.entries@);
                    assert(n2 =~= ns.push(nn));
                    assert(n2.to_set() =~= ns.to_set().insert(nn));
                    assert(self.entries@ == es0.push(entry));
                    crate::search::lemma_first_index_push(es0, entry, entry_named(nn));
                    crate::search::lemma_first_index(es0, entry_named(nn));
                    if let Some(j) = crate::search::first_index(es0, entry_named(nn)) {
                        assert(ns[j] == nn);
                    }
                    assert forall|n: Seq<char>| n != nn implies #[trigger] self.value_of(n) == old(self).value_of(n) by {
                        crate::search::lemma_first_index_push(es0, entry, entry_named(n));
                        if let Some(j) = crate::search::first_index(es0, entry_named(n)) {
                            crate::search::lemma_first_index(es0, entry_named(n));
                            assert(self.entries@[j] == es0[j]);
                        }
                    }
                }
            },
        }
    }

    /// The resource kept under `name`, whatever its type: another handle on it.
    pub fn resource_value(&self, name: &str) -> (r: Option<AnyResource>)
        ensures
            r == self.value_of(name@),
            r is Some <==> self@.contains(name@),
    {
        match self.position(name) {
            Some(i) => {
                proof {
                    crate::search::lemma_first_index_is(self.entries@, entry_named(name@), i as int);
                }
                Some(self.entries[i].value.clone())
            },
            None => {
                proof {
                    crate::search::lemma_first_index(self.entries@, entry_named(name@));
                    if let Some(j) = crate::search::first_index(self.entries@, entry_named(name@)) {
                        assert(entry_names(self.entries@)[j] == name@);
                    }
                }
                None
            },
        }
    }

    /// A collection of the given named resources; a later entry of a name
    /// replaces an earlier one: the resource kept under a name is the one of
    /// the last pair of that name.
    pub fn from_map(m: Vec<(String, AnyResource)>) -> (r: Self)
        ensures
            r@ == m@.map_values(|e: (String, AnyResource)| e.0@).to_set(),
            forall|n: Seq<char>|
                #[trigger] r.value_of(n) == match crate::search::last_index(m@, pair_named(n)) {
                    Some(j) => Some(m@[j].1),
                    None => None::<AnyResource>,
                },
    {
        let ghost mv = m@.map_values(|e: (String, AnyResource)| e.0@);
        let mut r = ResourceCollection::new();
        let mut i: usize = 0;
        let mut m = m;
        let n0 = m.len();
        let ghost orig = m@;
        proof {
            assert(mv.take(0).to_set() =~= Set::<Seq<char>>::empty());
        }
        while m.len() > 0
            invariant
                m@ == orig.skip(i as int),
                i <= orig.len(),
                n0 == orig.len(),
                mv == orig.map_values(|e: (String, AnyResource)| e.0@),
                r@ == mv.take(i as int).to_set(),
                forall|n: Seq<char>|
                    #[trigger] r.value_of(n) == match crate::search::last_index(orig.take(i as int), pair_named(n)) {
                        Some(j) => Some(orig[j].1),
                        None => None::<AnyResource>,
                    },
            decreases m@.len(),
        {
            let ghost pre = orig.take(i as int);
            let (name, value) = m.remove(0);
            proof {
                assert(name@ == mv[i as int]);
                assert(mv.take(i + 1) =~= mv.take(i as int).push(mv[i as int]));
                assert(mv.take(i + 1).to_set() =~= mv.take(i as int).to_set().insert(mv[i as int]));
                assert(m@ =~= orig.skip(i + 1));
            }
            proof {
                assert(orig[i as int] == (name, value));
                assert(orig.take(i + 1).drop_last() =~= pre);
                assert(orig.take(i + 1).last() == orig[i as int]);
            }
            r.insert(name, value);
            i += 1;
        }
        proof {
            assert(mv.take(i as int) =~= mv);
            assert(orig.take(i as int) =~= orig);
        }
        r
    }

    /// The resource of a name as an `Arc<T>`; `None` when there is none, or
    /// when it is of another type.
    pub fn get<T: Send + Sync + 'static>(&self, name: &str) -> (r: Option<Arc<T>>)
        ensures
            !self@.contains(name@) ==> r is None,
    {
        match self.resource_value(name) {
            Some(v) => downcast_arc::<T>(v),
            None => None,
        }
    }
}

impl Clone for ResourceCollection {
    /// A collection sharing the same resources.
    fn clone(&self) -> (r: Self)
        ensures
            r@ == self@,
    {
        let mut entries: Vec<ResourceEntry> = Vec::new();
        let mut i: usize = 0;
        while i < self.entries.len()
            invariant
                i <= self.entries@.len(),
                entry_names(entries@) == entry_names(self.entries@).take(i as int),
            decreases self.entries@.len() - i,
        {
            let ghost before = entries@;
            entries.push(ResourceEntry { name: self.entries[i].name.clone(), value: self.entries[i].value.clone() });
            proof {
                assert(entry_names(entries@) =~= entry_names(before).push(self.entries@[i as int].name@));
                assert(entry_names(self.entries@).take(i + 1) =~= entry_names(self.entries@).take(i as int).push(
                    self.entries@[i as int].name@,
                ));
            }
            i += 1;
        }
        proof {
            assert(entry_names(self.entries@).take(i as int) =~= entry_names(self.entries@));
        }
        ResourceCollection { entries }
    }
}

/// One registered resource type: the type name that configurations refer to.
pub struct ResourceRegistration {
    pub ty: String,
}

/// The first registration of a resource type name, if any.
pub open spec fn find_resource_spec(regs: Seq<ResourceRegistration>, ty: Seq<char>) -> Option<int> {
    crate::search::first_index(regs, |r: ResourceRegistration| r.ty@ == ty)
}

/// The position of the first registration of a resource type name.
pub fn find_resource_index(regs: &Vec<ResourceRegistration>, ty: &str) -> (r: Option<usize>)
    ensures
        r matches Some(i) ==> find_resource_spec(regs@, ty@) == Some(i as int),
        r is None ==> find_resource_spec(regs@, ty@) is None,
{
    let ghost p = |r: ResourceRegistration| r.ty@ == ty@;
    let mut i: usize = 0;
    while i < regs.len()
        invariant
            i <= regs@.len(),
            p == (|r: ResourceRegistration| r.ty@ == ty@),
            forall|j: int| 0 <= j < i ==> !p(regs@[j]),
        decreases regs@.len() - i,
    {
        if str_eq(regs[i].ty.as_str(), ty) {
            proof {
                crate::search::lemma_first_index_is(regs@, p, i as int);
            }
            return Some(i);
        }
        i += 1;
    }
    proof {
        crate::search::lemma_first_index(regs@, p);
    }
    None
}

/// Looks up a resource type by name (the first registration, when repeated).
pub fn find_resource<'a>(regs: &'a Vec<ResourceRegistration>, ty: &str) -> (r: Option<&'a ResourceRegistration>)
    ensures
        match find_resource_spec(regs@, ty@) {
            Some(i) => r matches Some(x) && x == &regs@[i],
            None => r is None,
        },
{
    let ghost p = |r: ResourceRegistration| r.ty@ == ty@;
    let mut i: usize = 0;
    while i < regs.len()
        invariant
            i <= regs@.len(),
            p == (|r: ResourceRegistration| r.ty@ == ty@),
            forall|j: int| 0 <= j < i ==> !p(regs@[j]),
        decreases regs@.len() - i,
    {
        if str_eq(regs[i].ty.as_str(), ty) {
            proof {
                crate::search::lemma_first_index_is(regs@, p, i as int);
            }
            return Some(&regs[i]);
        }
        i += 1;
    }
    proof {
        crate::search::lemma_first_index(regs@, p);
    }
    None
}

/// The runtime context a node is started with: its name and the graph's resources.
pub struct Context {
    pub name: String,
    pub resources: ResourceCollection,
}

impl Context {
    /// A context with a name and a collection of resources.
    pub fn new(name: &str, resources: ResourceCollection) -> (r: Self)
        ensures
            r.name@ == name@,
            r.resources@ == resources@,
    {
        Context { name: crate::text::owned(name), resources }
    }

    /// A nameless context without resources.
    pub fn anonymous() -> (r: Self)
        ensures
            r.name@.len() == 0,
            r.resources@ == Set::<Seq<char>>::empty(),
    {
        Context { name: String::new(), resources: ResourceCollection::new() }
    }

    /// The resource of a name as an `Arc<T>`; `None` when there is none, or
    /// when it is of another type.
    pub fn resource<T: Send + Sync + 'static>(&self, name: &str) -> (r: Option<Arc<T>>)
        ensures
            !self.resources@.contains(name@) ==> r is None,
    {
        self.resources.get(name)
    }
}

} // verus!
