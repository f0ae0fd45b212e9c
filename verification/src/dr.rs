//! A payload wrapper with a dirty flag and private side data.
//!
//! [`Dr<T>`] records whether its value may have changed since it was last
//! synchronised: a fresh or cloned wrapper is dirty, every mutable access
//! marks it dirty, and synchronising a dirty wrapper pushes the value out and
//! clears the flag.  Private data are extra values kept under string keys;
//! they never travel with a clone.
use vstd::prelude::*;
use crate::search::{first_index, lemma_first_index, lemma_first_index_is, lemma_first_index_push, lemma_first_index_same};
use crate::text::str_eq;
use std::any::Any;
use std::ops::{Deref, DerefMut};

verus! {

broadcast use vstd::seq_lib::group_seq_properties;

/// A value that can push its state into a destination of type `T`.
pub trait SyncWith<T>: Sized {
    /// What pushing `before` into `dest` leaves of the value: `after`.  An
    /// implementation states its own; by default nothing is known.
    open spec fn synced_into(before: Self, dest: T, after: Self) -> bool {
        true
    }

    /// Pushes the value into `dest`.
    fn sync_with(&mut self, dest: T)
        ensures
            Self::synced_into(*old(self), dest, *final(self)),
    ;
}

/// One private value of any type that can cross threads, boxed behind std's `Any`.
#[verifier::external_body]
pub struct PrivateValue {
    inner: Box<dyn Any + Send + Sync>,
}

impl PrivateValue {
    /// Boxes a value (std's `Box::new` into `dyn Any`).
    #[verifier::external_body]
    pub fn new<H: Send + Sync + 'static>(value: H) -> (r: PrivateValue) {
        PrivateValue { inner: Box::new(value) }
    }

    /// The value as a `U`, or `None` when it is of another type (std's `downcast_ref`).
    #[verifier::external_body]
    pub fn downcast_ref<U: 'static>(&self) -> (r: Option<&U>) {
        self.inner.downcast_ref::<U>()
    }

    /// The value as a `U`, for change, or `None` when it is of another type
    /// (std's `downcast_mut`).
    #[verifier::external_body]
    pub fn downcast_mut<U: 'static>(&mut self) -> (r: Option<&mut U>) {
        self.inner.downcast_mut::<U>()
    }
}

/// A private value with its key.
pub struct PrivateEntry {
    pub key: String,
    pub value: PrivateValue,
}

/// The keys of a list of private entries, in order.
pub open spec fn entry_keys(es: Seq<PrivateEntry>) -> Seq<Seq<char>> {
    es.map_values(|e: PrivateEntry| e.key@)
}

/// Whether no key occurs twice.
pub open spec fn keys_distinct(ks: Seq<Seq<char>>) -> bool {
    forall|i: int, j: int| 0 <= i < j < ks.len() ==> ks[i] != ks[j]
}

/// Whether a private entry is the one kept under `key`.
pub open spec fn entry_keyed(key: Seq<char>) -> spec_fn(PrivateEntry) -> bool {
    |e: PrivateEntry| e.key@ == key
}

/// A value with a dirty flag and private side data.
pub struct Dr<T> {
    private_data: Vec<PrivateEntry>,
    inner: T,
    dirty: bool,
}

/// Mathematical view of a [`Dr`]: the value, the flag, and the keys of the private data.
pub struct DrV<T> {
    pub inner: T,
    pub dirty: bool,
    pub keys: Set<Seq<char>>,
}

impl<T> View for Dr<T> {
    type V = DrV<T>;

    closed spec fn view(&self) -> DrV<T> {
        DrV { inner: self.inner, dirty: self.dirty, keys: entry_keys(self.private_data@).to_set() }
    }
}

impl<T> Dr<T> {
    /// The private value kept under `key`, if any.
    pub closed spec fn value_under(&self, key: Seq<char>) -> Option<PrivateValue> {
        match first_index(self.private_data@, entry_keyed(key)) {
            Some(i) => Some(self.private_data@[i].value),
            None => None,
        }
    }

    /// Whether the private keys are kept without repetition.
    pub closed spec fn well_formed(&self) -> bool {
        keys_distinct(entry_keys(self.private_data@))
    }

    /// Wraps a value: dirty, without private data.
    pub fn new(inner: T) -> (r: Self)
        ensures
            r.well_formed(),
            r@.inner == inner,
            r@.dirty,
            r@.keys.is_empty(),
    {
        let r = Dr { private_data: Vec::new(), inner, dirty: true };
        proof {
            assert(entry_keys(r.private_data@).to_set() =~= Set::empty());
        }
        r
    }

    /// Wraps a value: dirty, without private data (the conversion from `T`).
    pub fn from(inner: T) -> (r: Self)
        ensures
            r.well_formed(),
            r@.inner == inner,
            r@.dirty,
            r@.keys.is_empty(),
    {
        Dr::new(inner)
    }

    /// Keeps `header` under `key`, replacing what was kept there; the value
    /// and the flag stay.
    pub fn add_private_data<H: Send + Sync + 'static>(&mut self, key: String, header: H)
        requires
            old(self).well_formed(),
        ensures
            final(self).well_formed(),
            final(self)@.keys == old(self)@.keys.insert(key@),
            final(self)@.inner == old(self)@.inner,
            final(self)@.dirty == old(self)@.dirty,
            final(self).value_under(key@) is Some,
            forall|k: Seq<char>| k != key@ ==> #[trigger] final(self).value_under(k) == old(self).value_under(k),
    {
        let value = PrivateValue::new(header);
        self.keep_private_value(key, value);
    }

    /// Keeps `value` under `key`, replacing what was kept there: the value
    /// read back under `key` is `value`, and every other key keeps its
    /// value; the wrapped value and the flag stay.
    pub fn keep_private_value(&mut self, key: String, value: PrivateValue)
        requires
            old(self).well_formed(),
        ensures
            final(self).well_formed(),
            final(self)@.keys == old(self)@.keys.insert(key@),
            final(self)@.inner == old(self)@.inner,
            final(self)@.dirty == old(self)@.dirty,
            final(self).value_under(key@) == Some(value),
            forall|k: Seq<char>| k != key@ ==> #[trigger] final(self).value_under(k) == old(self).value_under(k),
    {
        let ghost ks = entry_keys(self.private_data@);
        let ghost es0 = self.private_data@;
        let ghost kk = key@;
        match self.position(key.as_str()) {
            Some(i) => {
                let ghost old_es = self.private_data@;
                self.private_data.set(i, PrivateEntry { key, value });
                proof {
                    assert(entry_keys(self.private_data@) =~= ks);
                    assert(ks.to_set().insert(kk) =~= ks.to_set());
                    let es = self.private_data@;
                    assert forall|j: int| 0 <= j < i implies !entry_keyed(kk)(es[j]) by {
                        assert(es[j] == es0[j]);
                    }
                    lemma_first_index_is(es, entry_keyed(kk), i as int);
                    assert forall|k: Seq<char>| k != kk implies #[trigger] self.value_under(k) == old(self).value_under(k) by {
                        lemma_first_index_same(es, entry_keyed(k), es0, entry_keyed(k));
                        lemma_first_index(es0, entry_keyed(k));
                        if let Some(j) = first_index(es0, entry_keyed(k)) {
                            assert(j != i);
                            assert(es[j] == es0[j]);
                        }
                    }
                }
            },
            None => {
                let ghost entry = PrivateEntry { key, value };
                self.private_data.push(PrivateEntry { key, value });
                proof {
                    assert(self.private_data@ == es0.push(entry));
                    lemma_first_index_push(es0, entry, entry_keyed(kk));
                    lemma_first_index(es0, entry_keyed(kk));
                    if let Some(j) = first_index(es0, entry_keyed(kk)) {
                        assert(ks[j] == kk);
                    }
                    assert forall|k: Seq<char>| k != kk implies #[trigger] self.value_under(k) == old(self).value_under(k) by {
                        lemma_first_index_push(es0, entry, entry_keyed(k));
                        if let Some(j) = first_index(es0, entry_keyed(k)) {
                            lemma_first_index(es0, entry_keyed(k));
                            assert(self.private_data@[j] == es0[j]);
                        }
                    }
                    let nks = entry_keys(self.private_data@);
                    assert(nks =~= ks.push(key@));
                    assert(nks.to_set() =~= ks.to_set().insert(key@)) by {
                        assert forall|x: Seq<char>| nks.to_set().contains(x) implies ks.to_set().insert(
                            key@,
                        ).contains(x) by {
                            let j = choose|j: int| 0 <= j < nks.len() && nks[j] == x;
                            if j < ks.len() {
                                assert(ks[j] == x);
                            }
                        }
                        assert forall|x: Seq<char>| ks.to_set().insert(key@).contains(x) implies nks.to_set().contains(x) by {
                            if x == key@ {
                                assert(nks[ks.len() as int] == x);
                            } else {
                                let j = choose|j: int| 0 <= j < ks.len() && ks[j] == x;
                                assert(nks[j] == x);
                            }
                        }
                    }
                }
            },
        }
    }

    /// The position of the private entry with this key.
    fn position(&self, key: &str) -> (r: Option<usize>)
        ensures
            match r {
                Some(i) => i < self.private_data@.len() && self.private_data@[i as int].key@ == key@
                    && self@.keys.contains(key@) && forall|j: int| 0 <= j < i ==> #[trigger] self.private_data@[j].key@ != key@,
                None => !entry_keys(self.private_data@).contains(key@) && !self@.keys.contains(key@),
            },
    {
        let mut i: usize = 0;
        while i < self.private_data.len()
            invariant
                i <= self.private_data@.len(),
                forall|j: int| 0 <= j < i ==> self.private_data@[j].key@ != key@,
            decreases self.private_data@.len() - i,
        {
            if str_eq(self.private_data[i].key.as_str(), key) {
                proof {
                    assert(entry_keys(self.private_data@)[i as int] == key@);
                }
                return Some(i);
            }
            i += 1;
        }
        proof {
            if entry_keys(self.private_data@).contains(key@) {
                let j = choose|j: int|
                    0 <= j < entry_keys(self.private_data@).len() && entry_keys(
                        self.private_data@,
                    )[j] == key@;
                assert(self.private_data@[j].key@ == key@);
            }
        }
        None
    }

    /// The private value under `key` as a `U`; `None` when there is none, or
    /// when it is of another type.
    pub fn private_data<U: 'static>(&self, key: &str) -> (r: Option<&U>)
        ensures
            !self@.keys.contains(key@) ==> r is None,
    {
        match self.private_value(key) {
            Some(v) => v.downcast_ref::<U>(),
            None => None,
        }
    }

    /// The private value kept under `key`, whatever its type.
    pub fn private_value(&self, key: &str) -> (r: Option<&PrivateValue>)
        ensures
            match r {
                Some(v) => self.value_under(key@) == Some(*v),
                None => self.value_under(key@) is None,
            },
            r is Some <==> self@.keys.contains(key@),
    {
        match self.position(key) {
            Some(i) => {
                proof {
                    lemma_first_index_is(self.private_data@, entry_keyed(key@), i as int);
                }
                Some(&self.private_data[i].value)
            },
            None => {
                proof {
                    lemma_first_index(self.private_data@, entry_keyed(key@));
                    if let Some(j) = first_index(self.private_data@, entry_keyed(key@)) {
                        assert(entry_keys(self.private_data@)[j] == key@);
                    }
                }
                None
            },
        }
    }

    /// The private value under `key` as a `U`, for change; `None` when there
    /// is none, or when it is of another type.  The value, the flag and the
    /// keys stay.
    pub fn private_data_mut<U: 'static>(&mut self, key: &str) -> (r: Option<&mut U>)
        requires
            old(self).well_formed(),
        ensures
            final(self).well_formed(),
            !old(self)@.keys.contains(key@) ==> r is None,
            final(self)@ == old(self)@,
    {
        match self.position(key) {
            Some(i) => {
                proof {
                    let es = self.private_data@;
                    assert forall|e: PrivateEntry| e.key@ == es[i as int].key@ implies #[trigger] entry_keys(
                        es.update(i as int, e),
                    ) == entry_keys(es) by {
                        assert(entry_keys(es.update(i as int, e)) =~= entry_keys(es));
                    }
                }
                let entry = &mut self.private_data[i];
                entry.value.downcast_mut::<U>()
            },
            None => None,
        }
    }

    /// The wrapped value.
    pub fn into_inner(self) -> (r: T)
        ensures
            r == self@.inner,
    {
        self.inner
    }
}

impl<T: Clone> Clone for Dr<T> {
    /// A clone of the value only: the private data stay behind and the copy is dirty.
    fn clone(&self) -> (r: Self)
        ensures
            cloned::<T>(self@.inner, r@.inner),
            r@.dirty,
            r@.keys.is_empty(),
    {
        Dr::new(self.inner.clone())
    }
}

impl<T, U> SyncWith<U> for Dr<T> where T: SyncWith<U> {
    /// A dirty wrapper hands its value to the value's own push and ends
    /// clean with the same private keys; a clean one stays exactly as it was.
    open spec fn synced_into(before: Dr<T>, dest: U, after: Dr<T>) -> bool {
        if before@.dirty {
            &&& T::synced_into(before@.inner, dest, after@.inner)
            &&& !after@.dirty
            &&& after@.keys == before@.keys
        } else {
            after@ == before@
        }
    }

    /// Pushes the value into `dest` if it is dirty, then clears the flag; a
    /// clean wrapper does nothing.
    fn sync_with(&mut self, dest: U)
        ensures
            !final(self)@.dirty,
            !old(self)@.dirty ==> final(self)@ == old(self)@,
            final(self)@.keys == old(self)@.keys,
            old(self)@.dirty ==> T::synced_into(old(self)@.inner, dest, final(self)@.inner),
    {
        if self.dirty {
            self.inner.sync_with(dest);
            self.dirty = false;
        }
    }
}

impl<T> Deref for Dr<T> {
    type Target = T;

    /// The value; reading does not mark it dirty.
    fn deref(&self) -> (r: &T)
        ensures
            *r == self@.inner,
    {
        &self.inner
    }
}

impl<T> DerefMut for Dr<T> {
    /// The value, for change; the wrapper becomes dirty whether or not it is changed.
    fn deref_mut(&mut self) -> (r: &mut T)
        ensures
            *r == old(self)@.inner,
            final(self)@.inner == *final(r),
            final(self)@.dirty,
            final(self)@.keys == old(self)@.keys,
    {
        self.dirty = true;
        &mut self.inner
    }
}

} // verus!
