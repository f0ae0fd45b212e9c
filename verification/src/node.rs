//! The life of a node task.
//!
//! A node runs as one task in three phases: it is initialized once, then
//! executed step by step until all its inputs are closed, then its outputs
//! are closed and it is finalized.  A step that finds an input channel
//! closed is no failure: it marks the inputs closed and the loop ends
//! gracefully.  Any other error of a step ends the task at once with that
//! error, without closing or finalizing.
//!
//! The task itself (awaiting the node's steps) belongs to the runtime; the
//! decisions between the steps are made by [`NodeRun`].
use crate::error::{Error, ErrorV};
use vstd::prelude::*;

verus! {

/// A node as graph assembly and the scheduler see it.
pub trait Node {
    /// Drops every output port, so that downstream nodes observe closure.
    fn close(&mut self);

    /// Whether every input port is closed; the task stops stepping when true.
    fn is_all_input_closed(&self) -> bool;
}

/// Where a node task stands.
#[derive(PartialEq, Eq, Structural, Clone, Copy, Debug)]
pub enum Stage {
    /// not started
    Start,
    /// initializing
    Initializing,
    /// stepping
    Running,
    /// closing the outputs
    Closing,
    /// finalizing
    Finalizing,
    /// finished
    Done,
}

/// What a node task does next.
#[derive(Debug)]
pub enum Action {
    /// run the node's `initialize`
    Initialize,
    /// run one step (`exec`)
    Exec,
    /// close the node's outputs
    Close,
    /// run the node's `finalize`
    Finalize,
    /// end the task with this result
    Finish(Result<(), Error>),
}

/// Mathematical view of an [`Action`].
pub enum ActionV {
    Initialize,
    Exec,
    Close,
    Finalize,
    Finish(Result<(), ErrorV>),
}

/// A result taken by the view of its error.
pub open spec fn result_view(r: Result<(), Error>) -> Result<(), ErrorV> {
    match r {
        Ok(()) => Ok(()),
        Err(e) => Err(e@),
    }
}

impl View for Action {
    type V = ActionV;

    open spec fn view(&self) -> ActionV {
        match self {
            Action::Initialize => ActionV::Initialize,
            Action::Exec => ActionV::Exec,
            Action::Close => ActionV::Close,
            Action::Finalize => ActionV::Finalize,
            Action::Finish(r) => ActionV::Finish(result_view(*r)),
        }
    }
}

/// What follows a finished phase: while inputs remain open, another step;
/// once they are all closed, closing the outputs.
pub open spec fn after_phase(inputs_closed: bool) -> (Stage, ActionV) {
    if inputs_closed {
        (Stage::Closing, ActionV::Close)
    } else {
        (Stage::Running, ActionV::Exec)
    }
}

/// What follows a step with result `r`: its error ends the task; otherwise
/// as after any phase.
pub open spec fn after_exec(r: Result<(), ErrorV>, inputs_closed: bool) -> (Stage, ActionV) {
    match r {
        Err(e) => (Stage::Done, ActionV::Finish(Err(e))),
        Ok(()) => after_phase(inputs_closed),
    }
}

/// What a step's wrapper makes of the step's own result: a closed input
/// channel marks the inputs closed and counts as success; every other
/// result passes through unchanged.
pub open spec fn settle_spec(r: Result<(), ErrorV>) -> (bool, Result<(), ErrorV>) {
    match r {
        Err(ErrorV::ChannelClosed) => (true, Ok(())),
        _ => (false, r),
    }
}

/// Wraps one step of a node: `Err(ChannelClosed)` becomes `Ok(())` together
/// with the order to mark the node's inputs closed (the first component);
/// any other result is returned as it is, with no such order.
pub fn settle_exec(r: Result<(), Error>) -> (res: (bool, Result<(), Error>))
    ensures
        (res.0, result_view(res.1)) == settle_spec(result_view(r)),
{
    match r {
        Err(Error::ChannelClosed) => (true, Ok(())),
        other => (false, other),
    }
}

/// The decisions of one node task, from start to finish.
pub struct NodeRun {
    stage: Stage,
}

impl View for NodeRun {
    type V = Stage;

    closed spec fn view(&self) -> Stage {
        self.stage
    }
}

impl NodeRun {
    /// A task that has not started.
    pub fn new() -> (r: NodeRun)
        ensures
            r@ == Stage::Start,
    {
        NodeRun { stage: Stage::Start }
    }

    /// Where the task stands.
    pub fn stage(&self) -> (r: Stage)
        ensures
            r == self@,
    {
        self.stage
    }

    /// Starts the task: its first action is to initialize the node.
    pub fn begin(&mut self) -> (a: Action)
        requires
            old(self)@ == Stage::Start,
        ensures
            final(self)@ == Stage::Initializing,
            a@ == ActionV::Initialize,
    {
        self.stage = Stage::Initializing;
        Action::Initialize
    }

    /// The node is initialized: step it, or close it at once when its
    /// inputs are already all closed.
    pub fn initialized(&mut self, inputs_closed: bool) -> (a: Action)
        requires
            old(self)@ == Stage::Initializing,
        ensures
            (final(self)@, a@) == after_phase(inputs_closed),
    {
        if inputs_closed {
            self.stage = Stage::Closing;
            Action::Close
        } else {
            self.stage = Stage::Running;
            Action::Exec
        }
    }

    /// A step returned `r` (already settled by [`settle_exec`]): an error
    /// ends the task with it; otherwise step again, or close the node once
    /// its inputs are all closed.
    pub fn executed(&mut self, r: Result<(), Error>, inputs_closed: bool) -> (a: Action)
        requires
            old(self)@ == Stage::Running,
        ensures
            (final(self)@, a@) == after_exec(result_view(r), inputs_closed),
    {
        match r {
            Err(e) => {
                self.stage = Stage::Done;
                Action::Finish(Err(e))
            },
            Ok(()) => {
                if inputs_closed {
                    self.stage = Stage::Closing;
                    Action::Close
                } else {
                    self.stage = Stage::Running;
                    Action::Exec
                }
            },
        }
    }

    /// The outputs are closed: finalize the node.
    pub fn closed(&mut self) -> (a: Action)
        requires
            old(self)@ == Stage::Closing,
        ensures
            final(self)@ == Stage::Finalizing,
            a@ == ActionV::Finalize,
    {
        self.stage = Stage::Finalizing;
        Action::Finalize
    }

    /// The node is finalized: the task ends successfully.
    pub fn finalized(&mut self) -> (a: Action)
        requires
            old(self)@ == Stage::Finalizing,
        ensures
            final(self)@ == Stage::Done,
            a@ == ActionV::Finish(Ok(())),
    {
        self.stage = Stage::Done;
        Action::Finish(Ok(()))
    }
}

/// A step that finds an input channel closed shuts the node down
/// gracefully: once its wrapper has marked the inputs closed, the task goes
/// on to close the outputs (and then to finalize and to end with success).
pub proof fn law_closed_input_shuts_down_gracefully()
    ensures
        ({
            let (mark, r) = settle_spec(Err(ErrorV::ChannelClosed));
            mark && after_exec(r, mark) == (Stage::Closing, ActionV::Close)
        }),
{
}

/// Any other error of a step ends the task with that very error, before
/// the outputs are closed, whatever the inputs are.
pub proof fn law_step_error_ends_task(e: ErrorV, inputs_closed: bool)
    requires
        e != ErrorV::ChannelClosed,
    ensures
        ({
            let (mark, r) = settle_spec(Err(e));
            !mark && after_exec(r, inputs_closed) == (Stage::Done, ActionV::Finish(Err(e)))
        }),
{
}

/// The first failure among the results of a group of tasks, in order.
pub open spec fn first_failure_spec(rs: Seq<Result<(), ErrorV>>) -> Result<(), ErrorV>
    decreases rs.len(),
{
    if rs.len() == 0 {
        Ok(())
    } else {
        match rs[0] {
            Err(e) => Err(e),
            Ok(()) => first_failure_spec(rs.drop_first()),
        }
    }
}

/// A sequence of results taken by the views of their errors.
pub open spec fn results_view(rs: Seq<Result<(), Error>>) -> Seq<Result<(), ErrorV>> {
    rs.map_values(|x: Result<(), Error>| result_view(x))
}

/// The first error among `rs`, in order, or success when there is none:
/// what a group of tasks that is awaited in order reports.
pub fn first_failure(rs: Vec<Result<(), Error>>) -> (r: Result<(), Error>)
    ensures
        result_view(r) == first_failure_spec(results_view(rs@)),
{
    let ghost all = results_view(rs@);
    let mut rest = rs;
    let mut i: usize = 0;
    let len = rest.len();
    let ghost n = len as nat;
    proof {
        assert(all.skip(0) =~= all);
    }
    while rest.len() > 0
        invariant
            i <= n,
            n <= usize::MAX,
            rest@.len() == n - i,
            all.len() == n,
            all == results_view(rs@),
            forall|k: int| 0 <= k < rest@.len() ==> result_view(#[trigger] rest@[k]) == all[i + k],
            first_failure_spec(all) == first_failure_spec(all.skip(i as int)),
        decreases rest@.len(),
    {
        let first = rest.remove(0);
        proof {
            assert(all.skip(i as int).len() > 0);
            assert(all.skip(i as int)[0] == result_view(first));
            assert(all.skip(i as int).drop_first() =~= all.skip(i + 1));
        }
        match first {
            Err(e) => {
                proof {
                    assert(first_failure_spec(all.skip(i as int)) == Err::<(), ErrorV>(e@));
                }
                return Err(e);
            },
            Ok(()) => {},
        }
        i = i + 1;
    }
    proof {
        assert(all.skip(i as int) =~= Seq::<Result<(), ErrorV>>::empty());
    }
    Ok(())
}

} // verus!
