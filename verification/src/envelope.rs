//! Message envelopes.
//!
//! An [`Envelope<M>`] carries an optional payload of type `M` together with
//! seven items of metadata ([`EnvelopeInfo`]).  Taking the payload out leaves
//! an empty envelope with the same metadata; repacking moves the metadata onto
//! a new payload, possibly of another type.
//!
//! A [`SealedEnvelope`] erases the payload type so that one channel can carry
//! envelopes of many types; the concrete envelope is recovered by a checked
//! downcast.  The erasure rests on std's `Any`, which Verus cannot reason
//! about, so the sealed form is opaque here: its operations are trusted calls
//! into std whose contracts say only what holds of every outcome.
use crate::text::{default_str_hash, hash_str, parse_u64, parse_u64_spec};
use std::any::{Any, TypeId};
use crate::interlayer::{type_id_of, type_ids_equal};
use std::sync::Arc;
use vstd::prelude::*;

verus! {

/// The address a port string stands for: the `u64` it denotes in decimal
/// (an optional '+', then digits), or else the std `DefaultHasher` value of
/// the whole string.
pub open spec fn str2addr_spec(s: Seq<char>) -> u64 {
    match parse_u64_spec(s) {
        Some(n) => n,
        None => default_str_hash(s),
    }
}

/// Turns a port string into an address: a decimal `u64` is taken as it is,
/// anything else is hashed with std's `DefaultHasher`.
pub fn str2addr(value: &str) -> (r: u64)
    ensures
        r == str2addr_spec(value@),
{
    match parse_u64(value) {
        Some(address) => address,
        None => hash_str(value),
    }
}

/// A number written in decimal is its own address.
pub proof fn law_str2addr_decimal(n: u64)
    ensures
        str2addr_spec(crate::text::decimal_digits(n as nat)) == n,
{
    crate::text::law_parse_decimal(n);
}

/// Data attached to an envelope and shared by every copy of it: a
/// reference-counted value of any type that can cross threads.  Copies of an
/// envelope share one allocation.
#[verifier::external_body]
pub struct ExtraData {
    inner: Arc<dyn Any + Send + Sync>,
}

impl ExtraData {
    /// Puts `value` behind a new shared reference (std's `Arc::new`).
    #[verifier::external_body]
    pub fn new<T: Send + Sync + 'static>(value: T) -> (r: ExtraData) {
        ExtraData { inner: Arc::new(value) }
    }

    /// Shares an existing reference-counted value (std's unsizing of `Arc<T>`).
    #[verifier::external_body]
    pub fn from_arc<T: Send + Sync + 'static>(value: Arc<T>) -> (r: ExtraData) {
        ExtraData { inner: value }
    }

    /// The shared value as a `T`, or `None` when it is of another type
    /// (std's `<dyn Any>::downcast_ref`).
    #[verifier::external_body]
    pub fn downcast_ref<T: 'static>(&self) -> (r: Option<&T>) {
        self.inner.downcast_ref::<T>()
    }

    /// Whether two handles share one allocation (std's `Arc::ptr_eq`).
    #[verifier::external_body]
    pub fn ptr_eq(a: &ExtraData, b: &ExtraData) -> (r: bool)
        ensures
            *a == *b ==> r,
    {
        Arc::ptr_eq(&a.inner, &b.inner)
    }
}

impl Clone for ExtraData {
    /// Another handle on the same allocation (std's `Arc::clone`); it is the
    /// same shared value, so the copy is equal to the original.
    #[verifier::external_body]
    fn clone(&self) -> (r: Self)
        ensures
            r == *self,
    {
        ExtraData { inner: self.inner.clone() }
    }
}

/// The seven items of metadata that travel with a message.
pub struct EnvelopeInfo {
    /// whether business processing should skip this message (the flag filters nothing by itself)
    pub skipped: bool,
    /// batch weight; `None` and `Some(0)` are different states
    pub weight: Option<usize>,
    /// sequence number; repeated numbers are allowed
    pub partial_id: Option<u64>,
    /// source address
    pub from_addr: Option<u64>,
    /// destination address, read by addressing nodes
    pub to_addr: Option<u64>,
    /// relay address
    pub transfer_addr: Option<u64>,
    /// attached data, shared between copies of the envelope
    pub extra_data: Option<ExtraData>,
}

/// The metadata of a fresh envelope: nothing skipped, every optional item absent.
pub open spec fn default_info() -> EnvelopeInfo {
    EnvelopeInfo {
        skipped: false,
        weight: None,
        partial_id: None,
        from_addr: None,
        to_addr: None,
        transfer_addr: None,
        extra_data: None,
    }
}

impl Default for EnvelopeInfo {
    fn default() -> (r: Self)
        ensures
            r == default_info(),
    {
        EnvelopeInfo {
            skipped: false,
            weight: None,
            partial_id: None,
            from_addr: None,
            to_addr: None,
            transfer_addr: None,
            extra_data: None,
        }
    }
}

impl Clone for EnvelopeInfo {
    /// A copy of every item; the attached data is shared, not copied.
    fn clone(&self) -> (r: Self)
        ensures
            r == *self,
    {
        let extra_data = match &self.extra_data {
            Some(d) => Some(d.clone()),
            None => None,
        };
        EnvelopeInfo {
            skipped: self.skipped,
            weight: self.weight,
            partial_id: self.partial_id,
            from_addr: self.from_addr,
            to_addr: self.to_addr,
            transfer_addr: self.transfer_addr,
            extra_data,
        }
    }
}

/// A message of type `M`, or none, with its metadata.
pub struct Envelope<M> {
    info: EnvelopeInfo,
    msg: Option<M>,
}

/// Mathematical view of an envelope: its metadata and its payload, if any.
pub struct EnvelopeV<M> {
    pub info: EnvelopeInfo,
    pub msg: Option<M>,
}

impl<M> View for Envelope<M> {
    type V = EnvelopeV<M>;

    closed spec fn view(&self) -> EnvelopeV<M> {
        EnvelopeV { info: self.info, msg: self.msg }
    }
}

impl<M> Envelope<M> {
    /// Wraps a message with default metadata.
    pub fn new(msg: M) -> (r: Self)
        ensures
            r@.info == default_info(),
            r@.msg == Some(msg),
    {
        Envelope { info: EnvelopeInfo::default(), msg: Some(msg) }
    }

    /// Wraps a message with the given metadata.
    pub fn with_info(msg: M, info: EnvelopeInfo) -> (r: Self)
        ensures
            r@.info == info,
            r@.msg == Some(msg),
    {
        Envelope { info, msg: Some(msg) }
    }

    /// An envelope with default metadata and no message.
    pub fn empty() -> (r: Self)
        ensures
            r@.info == default_info(),
            r@.msg is None,
    {
        Envelope { info: EnvelopeInfo::default(), msg: None }
    }

    /// The metadata.
    pub fn info(&self) -> (r: &EnvelopeInfo)
        ensures
            *r == self@.info,
    {
        &self.info
    }

    /// The metadata, for change; the payload stays as it is.
    pub fn info_mut(&mut self) -> (r: &mut EnvelopeInfo)
        ensures
            *r == old(self)@.info,
            final(self)@.info == *final(r),
            final(self)@.msg == old(self)@.msg,
    {
        &mut self.info
    }

    /// Takes the message out, leaving the envelope empty with its metadata.
    pub fn unpack(&mut self) -> (r: M)
        requires
            old(self)@.msg is Some,
        ensures
            r == old(self)@.msg->0,
            final(self)@.msg is None,
            final(self)@.info == old(self)@.info,
    {
        self.msg.take().unwrap()
    }

    /// A new envelope of another payload type with a copy of this metadata.
    pub fn repack<T>(&self, msg: T) -> (r: Envelope<T>)
        ensures
            r@.info == self@.info,
            r@.msg == Some(msg),
    {
        Envelope { info: self.info.clone(), msg: Some(msg) }
    }

    /// Replaces the message in place (same type); the metadata stays.
    pub fn repack_inplace(&mut self, msg: M)
        ensures
            final(self)@.info == old(self)@.info,
            final(self)@.msg == Some(msg),
    {
        self.msg = Some(msg);
    }

    /// Moves the message into a new envelope with a copy of the metadata,
    /// leaving this one empty with its metadata.
    pub fn take(&mut self) -> (r: Envelope<M>)
        ensures
            r@.info == old(self)@.info,
            r@.msg == old(self)@.msg,
            final(self)@.info == old(self)@.info,
            final(self)@.msg is None,
    {
        Envelope { info: self.info.clone(), msg: self.msg.take() }
    }

    /// The message.
    pub fn get_ref(&self) -> (r: &M)
        requires
            self@.msg is Some,
        ensures
            *r == self@.msg->0,
    {
        self.msg.as_ref().unwrap()
    }

    /// The message, for change; the metadata stays.
    pub fn get_mut(&mut self) -> (r: &mut M)
        requires
            old(self)@.msg is Some,
        ensures
            *r == old(self)@.msg->0,
            final(self)@.msg == Some(*final(r)),
            final(self)@.info == old(self)@.info,
    {
        self.msg.as_mut().unwrap()
    }

    /// Whether a message is present.
    pub fn is_some(&self) -> (r: bool)
        ensures
            r == self@.msg is Some,
    {
        self.msg.is_some()
    }

    /// Whether the envelope is empty.
    pub fn is_none(&self) -> (r: bool)
        ensures
            r == self@.msg is None,
    {
        self.msg.is_none()
    }
}

impl<M: Clone> Clone for Envelope<M> {
    /// A copy of the metadata and a clone of the message, if any.
    fn clone(&self) -> (r: Self)
        ensures
            r@.info == self@.info,
            r@.msg is Some == self@.msg is Some,
            self@.msg is Some ==> cloned::<M>(self@.msg->0, r@.msg->0),
    {
        let msg = match &self.msg {
            Some(m) => Some(m.clone()),
            None => None,
        };
        Envelope { info: self.info.clone(), msg }
    }
}

/// A shared borrow of a concrete envelope seen through std's `Any`.
#[verifier::external_body]
pub struct AnyRef<'a> {
    inner: &'a (dyn Any + Send),
}

impl<'a> AnyRef<'a> {
    /// The borrowed value as a `T`, or `None` when it is of another type
    /// (std's `<dyn Any>::downcast_ref`).
    #[verifier::external_body]
    pub fn downcast_ref<T: 'static>(self) -> (r: Option<&'a T>) {
        self.inner.downcast_ref::<T>()
    }

    /// Whether the borrowed value is a `T` (std's `<dyn Any>::is`).
    #[verifier::external_body]
    pub fn is<T: 'static>(&self) -> (r: bool) {
        self.inner.is::<T>()
    }
}

/// A mutable borrow of a concrete envelope seen through std's `Any`.
#[verifier::external_body]
pub struct AnyMut<'a> {
    inner: &'a mut (dyn Any + Send),
}

impl<'a> AnyMut<'a> {
    /// The borrowed value as a `T`, for change, or `None` when it is of
    /// another type (std's `<dyn Any>::downcast_mut`).
    #[verifier::external_body]
    pub fn downcast_mut<T: 'static>(self) -> (r: Option<&'a mut T>) {
        self.inner.downcast_mut::<T>()
    }
}

/// Views a value through std's `Any` (std's unsizing coercion to `&dyn Any`).
#[verifier::external_body]
fn any_ref<'a, T: Send + 'static>(v: &'a T) -> (r: AnyRef<'a>) {
    AnyRef { inner: v }
}

/// Views a value through std's `Any`, for change (std's unsizing coercion to `&mut dyn Any`).
#[verifier::external_body]
fn any_mut<'a, T: Send + 'static>(v: &'a mut T) -> (r: AnyMut<'a>) {
    AnyMut { inner: v }
}

/// The operations common to every envelope, whatever its payload type; what a
/// sealed envelope can still do once its payload type is erased.
pub trait AnyEnvelope: Send {
    /// This envelope seen through std's `Any`.
    fn as_any(&self) -> AnyRef<'_>;

    /// This envelope seen through std's `Any`, for change.
    fn as_any_mut(&mut self) -> AnyMut<'_>;

    /// A copy of this envelope, sealed: the same metadata, and a message
    /// exactly when this envelope holds one.
    fn clone_box(&self) -> (r: SealedEnvelope)
        ensures
            r@.info == self.carried_info(),
            r@.full == self.holds_message(),
    ;

    /// Whether a message is present.
    fn is_some(&self) -> bool;

    /// Whether no message is present.
    fn is_none(&self) -> bool;

    /// The metadata this envelope carries, if it carries any.
    spec fn carried_info(&self) -> Option<EnvelopeInfo>;

    /// The metadata, if the envelope carries any.
    fn info(&self) -> (r: Option<&EnvelopeInfo>)
        ensures
            match r {
                Some(i) => self.carried_info() == Some(*i),
                None => self.carried_info() is None,
            },
    ;

    /// Whether this envelope holds a message.
    spec fn holds_message(&self) -> bool;

    /// The metadata, for change, if the envelope carries any; whether a
    /// message is held does not change.
    fn info_mut(&mut self) -> (r: Option<&mut EnvelopeInfo>)
        ensures
            final(self).holds_message() == old(self).holds_message(),
            match r {
                Some(i) => old(self).carried_info() == Some(*i) && final(self).carried_info() == Some(*final(i)),
                None => old(self).carried_info() is None && final(self).carried_info() is None,
            },
    ;
}

impl<M: Clone + Send + 'static> AnyEnvelope for Envelope<M> {
    fn as_any(&self) -> (r: AnyRef<'_>) {
        any_ref(self)
    }

    fn as_any_mut(&mut self) -> (r: AnyMut<'_>) {
        any_mut(self)
    }

    fn clone_box(&self) -> (r: SealedEnvelope) {
        self.clone().seal()
    }

    fn is_some(&self) -> (r: bool)
        ensures
            r == self@.msg is Some,
    {
        self.msg.is_some()
    }

    fn is_none(&self) -> (r: bool)
        ensures
            r == self@.msg is None,
    {
        self.msg.is_none()
    }

    /// An envelope always carries its metadata.
    open spec fn carried_info(&self) -> Option<EnvelopeInfo> {
        Some(self@.info)
    }

    fn info(&self) -> (r: Option<&EnvelopeInfo>) {
        Some(&self.info)
    }

    /// Whether the payload is present.
    open spec fn holds_message(&self) -> bool {
        self@.msg is Some
    }

    fn info_mut(&mut self) -> (r: Option<&mut EnvelopeInfo>) {
        Some(&mut self.info)
    }
}

/// A payload-less placeholder envelope for control paths that need "an
/// envelope" carrying no message.
#[derive(Default, Clone, Copy)]
pub struct DummyEnvelope;

impl AnyEnvelope for DummyEnvelope {
    fn as_any(&self) -> (r: AnyRef<'_>) {
        any_ref(self)
    }

    fn as_any_mut(&mut self) -> (r: AnyMut<'_>) {
        any_mut(self)
    }

    fn clone_box(&self) -> (r: SealedEnvelope) {
        DummyEnvelope.seal()
    }

    fn is_some(&self) -> (r: bool)
        ensures
            !r,
    {
        false
    }

    fn is_none(&self) -> (r: bool)
        ensures
            r,
    {
        true
    }

    /// A placeholder carries no metadata.
    open spec fn carried_info(&self) -> Option<EnvelopeInfo> {
        None
    }

    fn info(&self) -> (r: Option<&EnvelopeInfo>) {
        None
    }

    /// A placeholder holds no message.
    open spec fn holds_message(&self) -> bool {
        false
    }

    fn info_mut(&mut self) -> (r: Option<&mut EnvelopeInfo>) {
        None
    }
}

/// A message whose type is erased: std's `Box<dyn Any + Send>`, together
/// with a copier that clones it at its own type (the message type's `Clone`).
#[verifier::external_body]
pub struct ErasedMessage {
    value: Box<dyn Any + Send>,
    copier: Arc<dyn Fn(&(dyn Any + Send)) -> Box<dyn Any + Send> + Send + Sync>,
}

impl ErasedMessage {
    /// Boxes a message (std's `Box::new` into `dyn Any`), keeping its `Clone` for copies.
    #[verifier::external_body]
    pub fn new<M: Clone + Send + 'static>(m: M) -> (r: ErasedMessage) {
        ErasedMessage {
            value: Box::new(m),
            copier: Arc::new(|a: &(dyn Any + Send)| -> Box<dyn Any + Send> { Box::new(a.downcast_ref::<M>().unwrap().clone()) }),
        }
    }

    /// The message back at type `M` (std's `Box::<dyn Any>::downcast`); of
    /// another type it comes back unchanged.
    #[verifier::external_body]
    pub fn take<M: 'static>(self) -> (r: Result<M, ErasedMessage>)
        ensures
            r matches Err(e) ==> e == self,
    {
        let ErasedMessage { value, copier } = self;
        match value.downcast::<M>() {
            Ok(b) => Ok(*b),
            Err(value) => Err(ErasedMessage { value, copier }),
        }
    }
}

impl Clone for ErasedMessage {
    /// A copy made by the message type's own `Clone`.
    #[verifier::external_body]
    fn clone(&self) -> (r: Self) {
        ErasedMessage { value: (self.copier)(&*self.value), copier: self.copier.clone() }
    }
}

/// A type-erased envelope: what channels carry.  Its metadata and whether it
/// holds a message are kept as they are; the message itself is erased, and
/// the identity of the concrete envelope type (`Envelope<M>` or
/// `DummyEnvelope`) is kept for checks.  A sealed placeholder carries no
/// metadata.
pub struct SealedEnvelope {
    tag: TypeId,
    info: Option<EnvelopeInfo>,
    msg: Option<ErasedMessage>,
}

/// What a sealed envelope shows: its metadata (none for a placeholder) and
/// whether it holds a message.
pub struct SealedV {
    pub info: Option<EnvelopeInfo>,
    pub full: bool,
}

impl View for SealedEnvelope {
    type V = SealedV;

    closed spec fn view(&self) -> SealedV {
        SealedV { info: self.info, full: self.msg is Some }
    }
}

impl<M: Clone + Send + 'static> Envelope<M> {
    /// Erases the payload type: the metadata and the presence of a message stay.
    pub fn seal(self) -> (r: SealedEnvelope)
        ensures
            r@.info == Some(self@.info),
            r@.full == (self@.msg is Some),
    {
        let Envelope { info, msg } = self;
        let m = match msg {
            Some(x) => Some(ErasedMessage::new(x)),
            None => None,
        };
        SealedEnvelope { tag: type_id_of::<Envelope<M>>(), info: Some(info), msg: m }
    }
}

impl DummyEnvelope {
    /// Seals the placeholder: no metadata, no message.
    pub fn seal(self) -> (r: SealedEnvelope)
        ensures
            r@.info is None,
            !r@.full,
    {
        SealedEnvelope { tag: type_id_of::<DummyEnvelope>(), info: None, msg: None }
    }
}

impl SealedEnvelope {
    /// Whether the sealed envelope is a `T` (`Envelope<M>` or `DummyEnvelope`).
    pub fn is<T: 'static>(&self) -> (r: bool) {
        type_ids_equal(&self.tag, &type_id_of::<T>())
    }

    /// Whether the sealed envelope holds a message.
    pub fn is_some(&self) -> (r: bool)
        ensures
            r == self@.full,
    {
        self.msg.is_some()
    }

    /// Whether the sealed envelope holds no message.
    pub fn is_none(&self) -> (r: bool)
        ensures
            r == !self@.full,
    {
        self.msg.is_none()
    }

    /// The metadata; a placeholder has none.
    pub fn info(&self) -> (r: &EnvelopeInfo)
        requires
            self@.info is Some,
        ensures
            *r == self@.info->0,
    {
        self.info.as_ref().unwrap()
    }

    /// The metadata, for change; a placeholder has none.  The message stays.
    pub fn info_mut(&mut self) -> (r: &mut EnvelopeInfo)
        requires
            old(self)@.info is Some,
        ensures
            *r == old(self)@.info->0,
            final(self)@.info == Some(*final(r)),
            final(self)@.full == old(self)@.full,
    {
        self.info.as_mut().unwrap()
    }

    /// Takes the envelope back at its concrete type `Envelope<M>`, with its
    /// metadata and, if it held one, its message.  A sealed envelope of
    /// another type comes back as it was.
    pub fn unseal<M: Clone + Send + 'static>(self) -> (r: Result<Envelope<M>, SealedEnvelope>)
        ensures
            r matches Ok(e) ==> self@.info == Some(e@.info) && (e@.msg is Some) == self@.full,
            r matches Err(s) ==> s@ == self@,
    {
        if !self.is::<Envelope<M>>() || self.info.is_none() {
            return Err(self);
        }
        let SealedEnvelope { tag, info, msg } = self;
        let info = info.unwrap();
        match msg {
            None => Ok(Envelope { info, msg: None }),
            Some(m) => match m.take::<M>() {
                Ok(x) => Ok(Envelope { info, msg: Some(x) }),
                Err(m) => Err(SealedEnvelope { tag, info: Some(info), msg: Some(m) }),
            },
        }
    }
}

impl Clone for SealedEnvelope {
    /// A copy with the same metadata and presence; the message is copied at
    /// its own type.
    fn clone(&self) -> (r: Self)
        ensures
            r@ == self@,
    {
        let info = match &self.info {
            Some(i) => Some(i.clone()),
            None => None,
        };
        let msg = match &self.msg {
            Some(m) => Some(m.clone()),
            None => None,
        };
        SealedEnvelope { tag: self.tag, info, msg }
    }
}

} // verus!
