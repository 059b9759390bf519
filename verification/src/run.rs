//! Running a plan frame by frame. The run decides; whoever drives it sends
//! the requests and hands the responses back.

use vstd::prelude::*;
use crate::cut::{merged, Register};
use crate::error::{path_view, Fault, FrError, PathStep, StepView};
use crate::exchange::{query_results, resolved_request, store_all, write_values, Observed};
use crate::frame::{is_least_missing, response_document, Frame, Protocol, Request};
use crate::matching::{mismatch, MatchMode};
use crate::ordered::pairs_map;
use crate::vreel::Plan;

verus! {

/// Where the exchange of one frame stands.
#[derive(Debug, Clone, Copy, PartialEq, Eq, Structural)]
pub enum FrameState {
    NotStarted,
    RequestBuilt,
    Sent,
    ResponseReceived,
    Matched,
    Mismatched,
    RegisterUpdated,
    Done,
    MissingVariable,
    PathQueryError,
}

/// What happens to the exchange of one frame.
#[derive(Debug, Clone, Copy, PartialEq, Eq, Structural)]
pub enum Event {
    /// The request was built from the register.
    RequestReady,
    /// A variable for the request has no value.
    VariableMissing,
    /// The request was handed to the transport.
    Dispatched,
    /// The transport returned a response.
    Responded,
    /// The transport gave up waiting.
    TimedOut,
    /// The response meets the expected one.
    Met,
    /// The response does not meet the expected one.
    NotMet,
    /// Every write found its value, and the register took them.
    Written,
    /// A write found no value.
    WriteFailed,
    /// The frame is closed.
    Closed,
}

/// The state that an event leads to, or nothing where the event has no
/// place in the state.
pub open spec fn successor(state: FrameState, event: Event) -> Option<FrameState> {
    match (state, event) {
        (FrameState::NotStarted, Event::RequestReady) => Some(FrameState::RequestBuilt),
        (FrameState::NotStarted, Event::VariableMissing) => Some(FrameState::MissingVariable),
        (FrameState::RequestBuilt, Event::Dispatched) => Some(FrameState::Sent),
        (FrameState::Sent, Event::Responded) => Some(FrameState::ResponseReceived),
        (FrameState::Sent, Event::TimedOut) => Some(FrameState::Mismatched),
        (FrameState::ResponseReceived, Event::Met) => Some(FrameState::Matched),
        (FrameState::ResponseReceived, Event::NotMet) => Some(FrameState::Mismatched),
        (FrameState::Matched, Event::Written) => Some(FrameState::RegisterUpdated),
        (FrameState::Matched, Event::WriteFailed) => Some(FrameState::PathQueryError),
        (FrameState::RegisterUpdated, Event::Closed) => Some(FrameState::Done),
        _ => None,
    }
}

/// The state is a failure, which ends the whole reel.
pub open spec fn is_failure(state: FrameState) -> bool {
    state == FrameState::Mismatched || state == FrameState::MissingVariable || state
        == FrameState::PathQueryError
}

/// Takes the exchange of a frame from one state to the next.
pub fn step(state: FrameState, event: Event) -> (next: Option<FrameState>)
    ensures
        next == successor(state, event),
{
    match (state, event) {
        (FrameState::NotStarted, Event::RequestReady) => Some(FrameState::RequestBuilt),
        (FrameState::NotStarted, Event::VariableMissing) => Some(FrameState::MissingVariable),
        (FrameState::RequestBuilt, Event::Dispatched) => Some(FrameState::Sent),
        (FrameState::Sent, Event::Responded) => Some(FrameState::ResponseReceived),
        (FrameState::Sent, Event::TimedOut) => Some(FrameState::Mismatched),
        (FrameState::ResponseReceived, Event::Met) => Some(FrameState::Matched),
        (FrameState::ResponseReceived, Event::NotMet) => Some(FrameState::Mismatched),
        (FrameState::Matched, Event::Written) => Some(FrameState::RegisterUpdated),
        (FrameState::Matched, Event::WriteFailed) => Some(FrameState::PathQueryError),
        (FrameState::RegisterUpdated, Event::Closed) => Some(FrameState::Done),
        _ => None,
    }
}

/// Takes the exchange of a frame on by an event that has its place.
fn follow(state: FrameState, event: Event) -> (next: FrameState)
    requires
        successor(state, event) is Some,
    ensures
        successor(state, event) == Some(next),
{
    match step(state, event) {
        Some(next) => next,
        None => state,
    }
}

/// Whether a state is a failure.
pub fn failed(state: FrameState) -> (r: bool)
    ensures
        r == is_failure(state),
{
    match state {
        FrameState::Mismatched | FrameState::MissingVariable | FrameState::PathQueryError => true,
        _ => false,
    }
}

/// A failure and a closed frame are final: no event leads on from them.
pub proof fn law_final_states(state: FrameState, event: Event)
    requires
        is_failure(state) || state == FrameState::Done,
    ensures
        successor(state, event) is None,
{
}

/// The failure that ended a run: which frame failed, where it stands in the
/// plan, and why.
#[derive(Debug, PartialEq, Eq)]
pub struct Failure {
    pub frame: String,
    pub position: usize,
    pub error: FrError,
}

/// What the driver of a run is to do next.
#[derive(Debug, PartialEq, Eq)]
pub enum Action {
    /// Send this request over this protocol, then report it as sent.
    Send(Protocol, Request),
    /// A request is under way: report it as sent, or hand in its response.
    Wait,
    /// Every frame has run.
    Finished,
    /// A frame has failed; nothing more runs.
    Failed,
}

/// A plan that is being run: the register as the frames so far have left
/// it, the frame that is up, and how far its exchange is.
#[derive(Debug)]
pub struct Run {
    register: Register,
    frames: Vec<(String, Frame)>,
    mode: MatchMode,
    position: usize,
    state: FrameState,
    failure: Option<Failure>,
}

impl Run {
    /// The register as it stands.
    pub closed spec fn register(&self) -> Map<Seq<char>, Seq<char>> {
        self.register@
    }

    /// The frames of the plan.
    pub closed spec fn frames(&self) -> Seq<(String, Frame)> {
        self.frames@
    }

    /// How observed fields that a template does not mention are treated.
    pub closed spec fn mode(&self) -> MatchMode {
        self.mode
    }

    /// The place in the plan of the frame that is up.
    pub closed spec fn position(&self) -> nat {
        self.position as nat
    }

    /// How far the exchange of the frame that is up is.
    pub closed spec fn state(&self) -> FrameState {
        self.state
    }

    /// The failure that ended the run, if one did.
    pub closed spec fn failure(&self) -> Option<Failure> {
        self.failure
    }

    /// Every frame has run and none has failed.
    pub open spec fn finished(&self) -> bool {
        self.position() == self.frames().len() && self.failure() is None
    }

    /// The run is consistent: a frame is up unless all have run, and a
    /// failure is recorded exactly when the state is one.
    pub closed spec fn well_formed(&self) -> bool {
        &&& self.register.well_formed()
        &&& forall|i: int| 0 <= i < self.frames@.len() ==> (#[trigger] self.frames@[i]).1.well_formed()
        &&& self.position <= self.frames@.len()
        &&& (self.state == FrameState::NotStarted || self.state == FrameState::RequestBuilt
            || self.state == FrameState::Sent || is_failure(self.state))
        &&& (self.state != FrameState::NotStarted ==> self.position < self.frames@.len())
        &&& (self.failure is Some <==> is_failure(self.state))
    }

    /// Starts the run of a plan at its first frame; responses will be
    /// checked in the given mode.
    pub fn new(plan: Plan, mode: MatchMode) -> (run: Run)
        requires
            plan.well_formed(),
        ensures
            run.well_formed(),
            run.register() == plan.register@,
            run.frames() == plan.frames@,
            run.mode() == mode,
            run.position() == 0,
            run.state() == FrameState::NotStarted,
            run.failure() is None,
    {
        let Plan { register, frames } = plan;
        Run { register, frames, mode, position: 0, state: FrameState::NotStarted, failure: None }
    }

    /// The value of a variable as the run has left it.
    pub fn variable(&self, name: &str) -> (r: Option<&String>)
        requires
            self.well_formed(),
        ensures
            r matches Some(v) ==> self.register().contains_key(name@) && self.register()[name@]
                == v@,
            r is None ==> !self.register().contains_key(name@),
    {
        self.register.get(name)
    }

    /// The failure that ended the run, if one did.
    pub fn failed_with(&self) -> (r: &Option<Failure>)
        ensures
            *r == self.failure(),
    {
        &self.failure
    }

    /// Decides what to do next. Where a frame is up and not started, its
    /// request is built from the register: the frame then waits to be sent,
    /// or, where a variable has no value, fails and ends the run.
    pub fn next_request(&mut self) -> (action: Action)
        requires
            old(self).well_formed(),
        ensures
            final(self).well_formed(),
            final(self).frames() == old(self).frames(),
            final(self).mode() == old(self).mode(),
            final(self).register() == old(self).register(),
            final(self).position() == old(self).position(),
            old(self).failure() is Some ==> action == Action::Failed && final(self).state() == old(self).state() && final(self).failure() == old(self).failure(),
            old(self).finished() ==> action == Action::Finished && final(self).state() == old(self).state() && final(self).failure() is None,
            old(self).failure() is None && !old(self).finished() && old(self).state()
                != FrameState::NotStarted ==> action == Action::Wait && final(self).state() == old(self).state() && final(self).failure() is None,
            old(self).failure() is None && !old(self).finished() && old(self).state()
                == FrameState::NotStarted ==> {
                let frame = old(self).frames()[old(self).position() as int].1;
                let name = old(self).frames()[old(self).position() as int].0;
                let vars = old(self).register();
                if !frame@.cut.reads.subset_of(vars.dom()) {
                    &&& action == Action::Failed
                    &&& final(self).state() == FrameState::MissingVariable
                    &&& final(self).failure() matches Some(f)
                    &&& f.frame@ == name@
                    &&& f.position == old(self).position()
                    &&& f.error matches FrError::MissingVariable(missing)
                    &&& is_least_missing(frame@.cut.reads, vars, missing@)
                } else {
                    match resolved_request(frame@.request, vars) {
                        Ok(request) => {
                            &&& action matches Action::Send(protocol, built)
                            &&& protocol == frame.protocol
                            &&& built@ == request
                            &&& final(self).state() == FrameState::RequestBuilt
                            &&& final(self).failure() is None
                        },
                        Err(missing) => {
                            &&& action == Action::Failed
                            &&& final(self).state() == FrameState::MissingVariable
                            &&& final(self).failure() matches Some(f)
                            &&& f.frame@ == name@
                            &&& f.position == old(self).position()
                            &&& f.error@ == Fault::MissingVariable(missing)
                        },
                    }
                }
            },
    {
        if self.failure.is_some() {
            return Action::Failed;
        }
        if self.position >= self.frames.len() {
            return Action::Finished;
        }
        match self.state {
            FrameState::NotStarted => {},
            _ => {
                return Action::Wait;
            },
        }
        let built = self.frames[self.position].1.build_request(&self.register);
        match built {
            Ok(request) => {
                self.state = FrameState::RequestBuilt;
                Action::Send(self.frames[self.position].1.protocol, request)
            },
            Err(error) => {
                self.state = FrameState::MissingVariable;
                self.failure = Some(
                    Failure {
                        frame: self.frames[self.position].0.clone(),
                        position: self.position,
                        error,
                    },
                );
                Action::Failed
            },
        }
    }

    /// Records that the request of the frame that is up was handed to the
    /// transport. Returns whether a request was waiting for that.
    pub fn mark_sent(&mut self) -> (accepted: bool)
        requires
            old(self).well_formed(),
        ensures
            final(self).well_formed(),
            final(self).frames() == old(self).frames(),
            final(self).mode() == old(self).mode(),
            final(self).register() == old(self).register(),
            final(self).position() == old(self).position(),
            final(self).failure() == old(self).failure(),
            accepted == (old(self).state() == FrameState::RequestBuilt),
            accepted ==> final(self).state() == FrameState::Sent,
            !accepted ==> final(self).state() == old(self).state(),
    {
        match step(self.state, Event::Dispatched) {
            Some(next) => {
                self.state = next;
                true
            },
            None => false,
        }
    }

    /// Records that the transport gave up waiting for the response of the
    /// frame that is up: the frame counts as mismatched at its root, and the
    /// run ends without any of the frame's writes. Returns whether a
    /// response was waited for.
    pub fn time_out(&mut self) -> (accepted: bool)
        requires
            old(self).well_formed(),
        ensures
            final(self).well_formed(),
            final(self).frames() == old(self).frames(),
            final(self).mode() == old(self).mode(),
            final(self).register() == old(self).register(),
            final(self).position() == old(self).position(),
            accepted == (old(self).state() == FrameState::Sent),
            !accepted ==> final(self).state() == old(self).state() && final(self).failure() == old(self).failure(),
            accepted ==> {
                &&& final(self).state() == FrameState::Mismatched
                &&& final(self).failure() matches Some(f)
                &&& f.frame@ == old(self).frames()[old(self).position() as int].0@
                &&& f.position == old(self).position()
                &&& f.error@ == Fault::ResponseMismatch(Seq::<StepView>::empty())
            },
    {
        match step(self.state, Event::TimedOut) {
            Some(next) => {
                let path: Vec<PathStep> = Vec::new();
                proof {
                    assert(path_view(path@) =~= Seq::<StepView>::empty());
                }
                self.state = next;
                self.failure = Some(
                    Failure {
                        frame: self.frames[self.position].0.clone(),
                        position: self.position,
                        error: FrError::ResponseMismatch(path),
                    },
                );
                true
            },
            None => false,
        }
    }

    /// Handles the response of the frame that is up. Where it meets the
    /// expected response and every write finds its value, the register
    /// takes the writes, the frame is done, and the next frame is up, not
    /// started. Otherwise the frame fails,
    /// the register stays as it was, and the run ends. Returns whether a
    /// response was waited for.
    pub fn receive(&mut self, observed: &Observed) -> (accepted: bool)
        requires
            old(self).well_formed(),
            observed.well_formed(),
        ensures
            final(self).well_formed(),
            final(self).frames() == old(self).frames(),
            final(self).mode() == old(self).mode(),
            accepted == (old(self).state() == FrameState::Sent),
            !accepted ==> final(self).state() == old(self).state() && final(self).failure() == old(self).failure() && final(self).register() == old(self).register() && final(self).position() == old(self).position(),
            accepted ==> {
                let frame = old(self).frames()[old(self).position() as int].1;
                let name = old(self).frames()[old(self).position() as int].0;
                match mismatch(
                    response_document(frame@.response),
                    response_document(observed.response()),
                    old(self).mode(),
                ) {
                    Some(path) => {
                        &&& final(self).state() == FrameState::Mismatched
                        &&& final(self).register() == old(self).register()
                        &&& final(self).position() == old(self).position()
                        &&& final(self).failure() matches Some(f)
                        &&& f.frame@ == name@
                        &&& f.position == old(self).position()
                        &&& f.error@ == Fault::ResponseMismatch(path)
                    },
                    None => match write_values(
                        frame.cut.write_entries(),
                        query_results(frame.cut.write_entries(), observed.response().body),
                    ) {
                        Ok(values) => {
                            &&& final(self).state() == FrameState::NotStarted
                            &&& final(self).register() == merged(
                                old(self).register(),
                                pairs_map(values),
                            )
                            &&& final(self).position() == old(self).position() + 1
                            &&& final(self).failure() is None
                        },
                        Err(fault) => {
                            &&& final(self).state() == FrameState::PathQueryError
                            &&& final(self).register() == old(self).register()
                            &&& final(self).position() == old(self).position()
                            &&& final(self).failure() matches Some(f)
                            &&& f.frame@ == name@
                            &&& f.position == old(self).position()
                            &&& f.error@ == fault
                        },
                    },
                }
            },
    {
        let received = match step(self.state, Event::Responded) {
            None => {
                return false;
            },
            Some(next) => next,
        };
        let at = self.position;
        assert(at < self.frames.len());
        let checked = self.frames[at].1.check_response(observed, self.mode);
        let error = match checked {
            Err(error) => {
                self.state = follow(received, Event::NotMet);
                error
            },
            Ok(()) => {
                let matched = follow(received, Event::Met);
                match self.frames[at].1.read_writes(observed) {
                    Err(error) => {
                        self.state = follow(matched, Event::WriteFailed);
                        error
                    },
                    Ok(values) => {
                        store_all(&mut self.register, &values);
                        self.position = at + 1;
                        self.state = FrameState::NotStarted;
                        return true;
                    },
                }
            },
        };
        self.failure = Some(Failure { frame: self.frames[at].0.clone(), position: at, error });
        true
    }
}

} // verus!
