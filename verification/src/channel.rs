//! What channel endpoints decide without waiting.
//!
//! Receiving a batch collects messages until their summed weight reaches
//! the requested amount (a message without a weight counts one); a timeout
//! returns what was collected, and a closed channel hands the partial batch
//! back inside the error.  The waiting itself belongs to the runtime; the
//! bookkeeping of a batch is [`Batch`].
use crate::interlayer::MsgTypeId;
use vstd::prelude::*;

verus! {

/// The message types at a channel endpoint: the one its port declares and
/// the one its channel carries.
pub trait TypeInfo {
    /// The type the endpoint's port declares.
    fn port_tid(&self) -> MsgTypeId;

    /// The type the endpoint's channel carries.
    fn chan_tid(&self) -> MsgTypeId;
}

/// A batch receive that ended early: the channel closed, and these are the
/// messages received before it did.
#[derive(Debug)]
pub enum BatchRecvError<T> {
    Closed(Vec<T>),
}

/// The weight a message counts for: its own, or one when it has none.
pub open spec fn weight_of(w: Option<usize>) -> nat {
    match w {
        Some(x) => x as nat,
        None => 1,
    }
}

/// The summed weight of a list of message weights.
pub open spec fn total_weight(ws: Seq<Option<usize>>) -> nat
    decreases ws.len(),
{
    if ws.len() == 0 {
        0
    } else {
        total_weight(ws.drop_last()) + weight_of(ws.last())
    }
}

/// Messages that carry no weight count one each: `k` of them weigh `k`, so
/// a batch of them completes exactly at the requested count.
pub proof fn law_unweighted_messages_count_one(k: nat)
    ensures
        total_weight(Seq::new(k, |i: int| None::<usize>)) == k,
    decreases k,
{
    if k > 0 {
        let s = Seq::new(k, |i: int| None::<usize>);
        assert(s.drop_last() =~= Seq::new((k - 1) as nat, |i: int| None::<usize>));
        law_unweighted_messages_count_one((k - 1) as nat);
    }
}

/// A batch being received: the messages so far, with the weights they
/// counted for, and the weight at which the batch is complete.
pub struct Batch<T> {
    items: Vec<T>,
    weights: Ghost<Seq<Option<usize>>>,
    weight: usize,
    threshold: usize,
}

/// Mathematical view of a [`Batch`].
pub struct BatchV<T> {
    pub items: Seq<T>,
    pub weights: Seq<Option<usize>>,
    pub threshold: nat,
}

impl<T> View for Batch<T> {
    type V = BatchV<T>;

    closed spec fn view(&self) -> BatchV<T> {
        BatchV { items: self.items@, weights: self.weights@, threshold: self.threshold as nat }
    }
}

impl<T> BatchV<T> {
    /// Whether the summed weight has reached the threshold.
    pub open spec fn complete(self) -> bool {
        total_weight(self.weights) >= self.threshold
    }
}

impl<T> Batch<T> {
    /// The bookkeeping behind the view: the weight is the summed weight,
    /// capped at `usize::MAX` (which no threshold exceeds).
    pub closed spec fn well_formed(&self) -> bool {
        &&& self.weights@.len() == self.items@.len()
        &&& self.weight as nat == if total_weight(self.weights@) > usize::MAX {
            usize::MAX as nat
        } else {
            total_weight(self.weights@)
        }
    }

    /// An empty batch that completes at summed weight `n`.
    pub fn new(n: usize) -> (r: Batch<T>)
        ensures
            r.well_formed(),
            r@.items == Seq::<T>::empty(),
            r@.weights == Seq::<Option<usize>>::empty(),
            r@.threshold == n,
    {
        Batch { items: Vec::new(), weights: Ghost(Seq::empty()), weight: 0, threshold: n }
    }

    /// Whether the batch is complete (a batch of threshold zero is complete
    /// at once).
    pub fn is_complete(&self) -> (r: bool)
        requires
            self.well_formed(),
        ensures
            r == self@.complete(),
    {
        self.weight >= self.threshold
    }

    /// Adds a received message that carries weight `w`, and tells whether
    /// the batch is now complete.
    pub fn offer(&mut self, item: T, w: Option<usize>) -> (complete: bool)
        requires
            old(self).well_formed(),
        ensures
            final(self).well_formed(),
            final(self)@ == (BatchV {
                items: old(self)@.items.push(item),
                weights: old(self)@.weights.push(w),
                ..old(self)@
            }),
            complete == final(self)@.complete(),
    {
        let add: usize = match w {
            Some(x) => x,
            None => 1,
        };
        self.weight = self.weight.saturating_add(add);
        self.items.push(item);
        let ghost ws = self.weights@.push(w);
        proof {
            assert(ws.drop_last() =~= self.weights@);
        }
        self.weights = Ghost(ws);
        self.weight >= self.threshold
    }

    /// The messages received so far, in order.
    pub fn into_items(self) -> (r: Vec<T>)
        ensures
            r@ == self@.items,
    {
        self.items
    }
}

} // verus!
