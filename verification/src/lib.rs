//! A hierarchical state machine (HSM) engine.
//!
//! States form a forest under a parent relation. The engine owns the current
//! state identifier, dispatches lifecycle (`Enter`/`Exit`) and user events to
//! the states, bubbles unhandled user events to ancestors, and, on a
//! transition, exits exactly the states below the nearest common ancestor on
//! the source side and enters exactly those on the destination side.
//!
//! The contracts speak about the state table's *delivery history*, a ghost
//! sequence that [`traits::StateLookup::dispatch`] extends by exactly one
//! record per call, and about the ancestor-chain model in [`hierarchy`].

use vstd::prelude::*;

pub mod traits;
pub mod hierarchy;
mod state_machine;

pub use state_machine::lifecycle_run;
pub use state_machine::offending;
pub use state_machine::probe_ascent;
pub use state_machine::StateMachine;
pub use traits::Initializer;
pub use traits::InstanceParent;
pub use traits::Name;
pub use traits::Parent;
pub use traits::State;
pub use traits::StateLookup;

verus! {

/// An event delivered to a state: a lifecycle notification (`Enter`, `Exit`)
/// or a user event carrying a payload.
///
/// Event-scoped mutable data travels beside the event as a separate argument
/// of the dispatch methods.
#[derive(Debug)]
pub enum Event<UsrEvtEnum> {
    Enter,
    User(UsrEvtEnum),
    Exit,
}

/// What a state decided about an event it was handed.
///
/// Lifecycle deliveries must yield `Ignore` or `Parent`; anything else is a
/// fatal protocol violation. A state that needs to mutate shared data before
/// it can name its target answers a probe with `DelayedTransition` and must
/// answer the follow-up commit call with `Transition`.
#[derive(Debug)]
pub enum Action<UsrStEnum> {
    Ignore,
    Parent,
    DelayedTransition,
    Transition(UsrStEnum),
}

/// Which lifecycle delivery a pending task or a fatal report stands for.
#[derive(Debug, Clone, Copy, PartialEq, Eq, Structural)]
pub enum EnterOrExit {
    Enter,
    Exit,
}

/// A fatal protocol violation. Every variant names the offending state, and
/// each marks a configuration or programming error: the machine's position is
/// unspecified afterwards, and no retry can succeed.
#[derive(Debug, PartialEq, Eq)]
pub enum Fatal<UsrStEnum> {
    /// `input` was called before `start`.
    NotStarted,
    /// A state answered `Parent` while having no parent.
    NoParent(UsrStEnum),
    /// A lifecycle (`Enter`/`Exit`) delivery answered something other than
    /// `Ignore` or `Parent`.
    LifecycleTransition(UsrStEnum, EnterOrExit),
    /// A state answered a probe with `DelayedTransition` but did not answer
    /// the commit call with `Transition`.
    DelayedNotCommitted(UsrStEnum),
}

/// How one `input` call ended when no protocol violation occurred.
#[derive(Debug, PartialEq, Eq)]
pub enum Response<UsrStEnum> {
    /// Some state along the ancestor chain answered `Ignore`; the current
    /// state is unchanged and no lifecycle event was delivered.
    Handled,
    /// `source` (the current state or one of its ancestors, reached by
    /// bubbling) committed a transition to `target`.
    Transitioned { source: UsrStEnum, target: UsrStEnum },
}

/// One delivery the state table performed, as the contracts see it: which
/// state received which event, whether the call was a probe, and the action
/// the state answered.
///
/// [`traits::StateLookup::dispatch`] appends exactly one such record to the
/// table's delivery history per call, so a contract stated over the history
/// speaks of deliveries that actually happened, in the order they happened.
pub struct Delivery<UsrStEnum, UsrEvtEnum> {
    pub state: UsrStEnum,
    pub event: Event<UsrEvtEnum>,
    pub probe: bool,
    pub action: Action<UsrStEnum>,
}

/// A pending lifecycle delivery: a state identifier plus an Enter-or-Exit
/// tag, accumulated transiently during one `start`/`input` call.
#[derive(Debug)]
pub(crate) struct Task<UsrStEnum> {
    pub(crate) state: UsrStEnum,
    pub(crate) enter_or_exit: EnterOrExit,
}

impl<UsrStEnum> Task<UsrStEnum> {
    pub(crate) fn new(state: UsrStEnum, enter_or_exit: EnterOrExit) -> (t: Self)
        ensures
            t.state == state,
            t.enter_or_exit == enter_or_exit,
    {
        Task { state, enter_or_exit }
    }

    /// The lifecycle event a pending delivery dispatches.
    pub(crate) fn event<UsrEvtEnum>(&self) -> (e: Event<UsrEvtEnum>)
        ensures
            self.enter_or_exit is Enter ==> e is Enter,
            self.enter_or_exit is Exit ==> e is Exit,
    {
        match self.enter_or_exit {
            EnterOrExit::Enter => Event::Enter,
            EnterOrExit::Exit => Event::Exit,
        }
    }
}

} // verus!
