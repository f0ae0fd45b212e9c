//! Records shared by algorithm nodes: the life-cycle state of a track, and a
//! vector that remembers a checkpoint length.
use vstd::prelude::*;
use std::ops::{Deref, DerefMut};

verus! {

/// The life-cycle state of a tracked object, in declaration order.
#[derive(Debug, Clone, Copy, PartialEq, Eq, Structural)]
pub enum TrackState {
    No,
    New,
    Update,
    Miss,
    Die,
    Filtered,
    Select,
    Max,
}

/// The textual name of each state.
pub open spec fn track_state_name(s: TrackState) -> Seq<char> {
    match s {
        TrackState::No => "no"@,
        TrackState::New => "new"@,
        TrackState::Update => "update"@,
        TrackState::Miss => "miss"@,
        TrackState::Die => "die"@,
        TrackState::Filtered => "filtered"@,
        TrackState::Select => "select"@,
        TrackState::Max => "max"@,
    }
}

/// The position of each state in declaration order.
pub open spec fn track_state_index(s: TrackState) -> nat {
    match s {
        TrackState::No => 0,
        TrackState::New => 1,
        TrackState::Update => 2,
        TrackState::Miss => 3,
        TrackState::Die => 4,
        TrackState::Filtered => 5,
        TrackState::Select => 6,
        TrackState::Max => 7,
    }
}

/// Whether `s` is the name of some state.
pub open spec fn is_track_state_name(s: Seq<char>) -> bool {
    exists|t: TrackState| track_state_name(t) == s
}

impl Default for TrackState {
    /// The default state is `No`.
    fn default() -> (r: Self)
        ensures
            r == TrackState::No,
    {
        TrackState::No
    }
}

/// Distinct states have distinct names.
pub proof fn lemma_track_state_names_distinct(a: TrackState, b: TrackState)
    ensures
        track_state_name(a) == track_state_name(b) ==> a == b,
{
    reveal_strlit("no");
    reveal_strlit("new");
    reveal_strlit("update");
    reveal_strlit("miss");
    reveal_strlit("die");
    reveal_strlit("filtered");
    reveal_strlit("select");
    reveal_strlit("max");
    if track_state_name(a) == track_state_name(b) && a != b {
        let x = track_state_name(a);
        assert(x.len() == track_state_name(b).len());
        assert(x[0] == track_state_name(b)[0]);
        assert(x[x.len() - 1] == track_state_name(b)[x.len() - 1]);
    }
}

impl TrackState {
    /// The textual name of the state.
    pub fn name(&self) -> (r: &'static str)
        ensures
            r@ == track_state_name(*self),
    {
        match self {
            TrackState::No => "no",
            TrackState::New => "new",
            TrackState::Update => "update",
            TrackState::Miss => "miss",
            TrackState::Die => "die",
            TrackState::Filtered => "filtered",
            TrackState::Select => "select",
            TrackState::Max => "max",
        }
    }

    /// The state with this name, which must be one of the eight names (exactly,
    /// case and white space included).
    pub fn from(value: &str) -> (r: TrackState)
        requires
            is_track_state_name(value@),
        ensures
            track_state_name(r) == value@,
    {
        let ghost t = choose|t: TrackState| track_state_name(t) == value@;
        proof {
            lemma_track_state_names_distinct(t, TrackState::No);
        }
        if crate::text::str_eq(value, "no") {
            TrackState::No
        } else if crate::text::str_eq(value, "new") {
            TrackState::New
        } else if crate::text::str_eq(value, "update") {
            TrackState::Update
        } else if crate::text::str_eq(value, "miss") {
            TrackState::Miss
        } else if crate::text::str_eq(value, "die") {
            TrackState::Die
        } else if crate::text::str_eq(value, "filtered") {
            TrackState::Filtered
        } else if crate::text::str_eq(value, "select") {
            TrackState::Select
        } else {
            proof {
                match t {
                    TrackState::Max => {},
                    _ => {
                        assert(false);
                    },
                }
            }
            TrackState::Max
        }
    }

    /// The name of the state, as a new `String`.
    pub fn to_string(&self) -> (r: String)
        ensures
            r@ == track_state_name(*self),
    {
        crate::text::owned(self.name())
    }

    /// The position of the state in declaration order.
    pub fn index(&self) -> (r: usize)
        ensures
            r == track_state_index(*self),
    {
        match self {
            TrackState::No => 0,
            TrackState::New => 1,
            TrackState::Update => 2,
            TrackState::Miss => 3,
            TrackState::Die => 4,
            TrackState::Filtered => 5,
            TrackState::Select => 6,
            TrackState::Max => 7,
        }
    }
}

/// A state's name parses back to the state.
pub proof fn law_track_state_name_round_trip(t: TrackState)
    ensures
        is_track_state_name(track_state_name(t)),
        forall|u: TrackState| track_state_name(u) == track_state_name(t) ==> u == t,
{
    assert forall|u: TrackState| track_state_name(u) == track_state_name(t) implies u == t by {
        lemma_track_state_names_distinct(u, t);
    }
}

/// A vector with a separately kept checkpoint length.  Pushing does not move
/// the checkpoint; the owner sets it.
pub struct RecordVec<T>(pub Vec<T>, pub usize);

impl<T> RecordVec<T> {
    /// Appends an element; the checkpoint stays.
    pub fn push(&mut self, elem: T)
        ensures
            final(self).0@ == old(self).0@.push(elem),
            final(self).1 == old(self).1,
    {
        self.0.push(elem);
    }
}

impl<T> From<Vec<T>> for RecordVec<T> {
    /// The vector, with the checkpoint at its length.
    fn from(value: Vec<T>) -> (r: Self)
        ensures
            r.0@ == value@,
            r.1 == value@.len(),
    {
        let l = value.len();
        RecordVec(value, l)
    }
}

impl<T> vstd::std_specs::convert::FromSpecImpl<Vec<T>> for RecordVec<T> {
    open spec fn obeys_from_spec() -> bool {
        true
    }

    open spec fn from_spec(v: Vec<T>) -> Self {
        RecordVec(v, v@.len() as usize)
    }
}

impl<T> From<RecordVec<T>> for Vec<T> {
    /// The elements; the checkpoint is dropped.
    fn from(value: RecordVec<T>) -> (r: Self)
        ensures
            r@ == value.0@,
    {
        value.0
    }
}

impl<T> vstd::std_specs::convert::FromSpecImpl<RecordVec<T>> for Vec<T> {
    open spec fn obeys_from_spec() -> bool {
        true
    }

    open spec fn from_spec(v: RecordVec<T>) -> Self {
        v.0
    }
}

impl<T> Default for RecordVec<T> {
    /// No elements, checkpoint zero.
    fn default() -> (r: Self)
        ensures
            r.0@.len() == 0,
            r.1 == 0,
    {
        RecordVec(Vec::new(), 0)
    }
}

impl<T> Deref for RecordVec<T> {
    type Target = [T];

    /// The elements, as a slice.
    fn deref(&self) -> (r: &[T])
        ensures
            r@ == self.0@,
    {
        self.0.as_slice()
    }
}

impl<T> DerefMut for RecordVec<T> {
    /// The elements, as a slice for change; the checkpoint stays.
    fn deref_mut(&mut self) -> (r: &mut [T])
        ensures
            r@ == old(self).0@,
            final(self).0@ == final(r)@,
            final(self).1 == old(self).1,
    {
        self.0.as_mut_slice()
    }
}

} // verus!
