//! The broker's topics and their subscribers.
//!
//! Each topic has a name and the subscribers made so far, numbered in the
//! order they subscribed.  Subscribing to a topic for the first time adds
//! it; every message published on a topic is copied to each of its
//! subscribers, in that order.  When the broker starts, it takes the table
//! as it stands: later subscriptions go into a fresh table and receive
//! nothing from the topics already running.
use crate::search::{first_index, lemma_first_index, lemma_first_index_is};
use crate::text::{owned, str_eq};
use vstd::prelude::*;

verus! {

/// The topics, in the order each was first subscribed to, with their
/// numbers of subscribers.
pub struct Topics {
    names: Vec<String>,
    counts: Vec<usize>,
}

impl View for Topics {
    type V = Seq<(Seq<char>, nat)>;

    closed spec fn view(&self) -> Seq<(Seq<char>, nat)> {
        Seq::new(self.names@.len(), |i: int| (self.names@[i]@, self.counts@[i] as nat))
    }
}

/// Whether a topic of the table is the one named `name`.
pub open spec fn topic_named(name: Seq<char>) -> spec_fn((Seq<char>, nat)) -> bool {
    |t: (Seq<char>, nat)| t.0 == name
}

/// The table after one more subscription to `name`, and that subscription
/// (the topic's position, the subscriber's position among the topic's
/// subscribers): a known topic gains a subscriber after its others; an
/// unknown topic is added at the end with this one as its first.
pub open spec fn subscribed(ts: Seq<(Seq<char>, nat)>, name: Seq<char>) -> (Seq<(Seq<char>, nat)>, (int, int)) {
    match first_index(ts, topic_named(name)) {
        Some(i) => (ts.update(i, (name, ts[i].1 + 1)), (i, ts[i].1 as int)),
        None => (ts.push((name, 1nat)), (ts.len() as int, 0)),
    }
}

/// No two topics of the table share a name.
pub open spec fn names_distinct(ts: Seq<(Seq<char>, nat)>) -> bool {
    forall|i: int, j: int| 0 <= i < j < ts.len() ==> (#[trigger] ts[i]).0 != (#[trigger] ts[j]).0
}

impl Topics {
    /// Every topic has its count.
    pub closed spec fn wf(&self) -> bool {
        self.names@.len() == self.counts@.len()
    }

    /// A table with no topic.
    pub fn new() -> (r: Topics)
        ensures
            r.wf(),
            r@ == Seq::<(Seq<char>, nat)>::empty(),
    {
        let r = Topics { names: Vec::new(), counts: Vec::new() };
        proof {
            assert(r@ =~= Seq::<(Seq<char>, nat)>::empty());
        }
        r
    }

    /// Subscribes to `topic`, adding it on first use: the topic's position
    /// and the new subscriber's position among its subscribers, as
    /// [`subscribed`] says.  `None`, with the table unchanged, when the
    /// count of the topic's subscribers, or of topics, would not fit in a
    /// `usize`.
    pub fn subscribe(&mut self, topic: &str) -> (r: Option<(usize, usize)>)
        requires
            old(self).wf(),
        ensures
            final(self).wf(),
            match r {
                Some((t, s)) => subscribed(old(self)@, topic@) == (final(self)@, (t as int, s as int)),
                None => final(self)@ == old(self)@ && match first_index(old(self)@, topic_named(topic@)) {
                    Some(i) => old(self)@[i].1 == usize::MAX,
                    None => old(self)@.len() == usize::MAX,
                },
            },
    {
        let ghost v0 = self@;
        let ghost p = topic_named(topic@);
        let mut i: usize = 0;
        while i < self.names.len()
            invariant
                self.wf(),
                self@ == v0,
                v0 == old(self)@,
                p == topic_named(topic@),
                i <= self.names@.len(),
                forall|j: int| 0 <= j < i ==> !p(#[trigger] v0[j]),
            decreases self.names@.len() - i,
        {
            proof {
                assert(v0[i as int].0 == self.names@[i as int]@);
                assert(v0[i as int].1 == self.counts@[i as int] as nat);
            }
            if str_eq(self.names[i].as_str(), topic) {
                proof {
                    lemma_first_index_is(v0, p, i as int);
                }
                let c = self.counts[i];
                if c == usize::MAX {
                    return None;
                }
                self.counts.set(i, c + 1);
                proof {
                    assert(self@ =~= v0.update(i as int, (topic@, v0[i as int].1 + 1)));
                }
                return Some((i, c));
            }
            i += 1;
        }
        proof {
            lemma_first_index(v0, p);
            if let Some(k) = first_index(v0, p) {
                assert(!p(v0[k]));
            }
        }
        let n = self.names.len();
        if n == usize::MAX {
            return None;
        }
        self.names.push(owned(topic));
        self.counts.push(1);
        proof {
            assert(self@ =~= v0.push((topic@, 1nat)));
        }
        Some((n, 0))
    }

    /// Takes the table as it stands, leaving an empty one behind.
    pub fn take(&mut self) -> (r: Topics)
        requires
            old(self).wf(),
        ensures
            r.wf(),
            r@ == old(self)@,
            final(self).wf(),
            final(self)@ == Seq::<(Seq<char>, nat)>::empty(),
    {
        let mut names: Vec<String> = Vec::new();
        let mut counts: Vec<usize> = Vec::new();
        std::mem::swap(&mut names, &mut self.names);
        std::mem::swap(&mut counts, &mut self.counts);
        proof {
            assert(self@ =~= Seq::<(Seq<char>, nat)>::empty());
        }
        let r = Topics { names, counts };
        proof {
            assert(r@ =~= old(self)@);
        }
        r
    }

    /// The subscribers a message on topic `t` is copied to: every one, in
    /// the order they subscribed.
    pub fn recipients(&self, t: usize) -> (r: Vec<usize>)
        requires
            self.wf(),
            t < self@.len(),
        ensures
            r@ == Seq::new(self@[t as int].1, |i: int| i as usize),
    {
        let n = self.counts[t];
        let mut r: Vec<usize> = Vec::new();
        let mut i: usize = 0;
        while i < n
            invariant
                i <= n,
                r@ == Seq::new(i as nat, |k: int| k as usize),
            decreases n - i,
        {
            r.push(i);
            i += 1;
            proof {
                assert(r@ =~= Seq::new(i as nat, |k: int| k as usize));
            }
        }
        r
    }
}

/// A subscriber is reached: the subscription names a topic of that name,
/// and its subscriber is among the topic's recipients; every other topic
/// keeps its name and its subscribers.
pub proof fn law_subscriber_is_reached(ts: Seq<(Seq<char>, nat)>, name: Seq<char>)
    ensures
        ({
            let (nt, (t, s)) = subscribed(ts, name);
            &&& 0 <= t < nt.len()
            &&& nt[t].0 == name
            &&& 0 <= s < nt[t].1
            &&& nt.len() >= ts.len()
            &&& forall|j: int| 0 <= j < ts.len() && j != t ==> #[trigger] nt[j] == ts[j]
        }),
{
    lemma_first_index(ts, topic_named(name));
}

/// Topic names stay distinct: a name is added only when no topic has it.
pub proof fn law_topic_names_stay_distinct(ts: Seq<(Seq<char>, nat)>, name: Seq<char>)
    requires
        names_distinct(ts),
    ensures
        names_distinct(subscribed(ts, name).0),
{
    lemma_first_index(ts, topic_named(name));
    let nt = subscribed(ts, name).0;
    assert forall|i: int, j: int| 0 <= i < j < nt.len() implies (#[trigger] nt[i]).0 != (#[trigger] nt[j]).0 by {
        if first_index(ts, topic_named(name)) is None && j == ts.len() {
            assert(!topic_named(name)(ts[i]));
        } else {
            assert(ts[i].0 == nt[i].0 && ts[j].0 == nt[j].0);
        }
    }
}

/// A subscription made after the broker started lands in the fresh table:
/// it is the first subscriber of the first topic there, whatever the
/// started topics hold.
pub proof fn law_late_subscription_is_fresh(name: Seq<char>)
    ensures
        subscribed(Seq::empty(), name) == (seq![(name, 1nat)], (0int, 0int)),
{
    assert(Seq::<(Seq<char>, nat)>::empty().push((name, 1nat)) =~= seq![(name, 1nat)]);
}

} // verus!
