//! The fatal protocol violations: input before start, a transition answered
//! from a lifecycle delivery, and an uncommitted delayed transition.
//! (`Parent` at a root is covered beside the hierarchy tests.)

use hsm::Action;
use hsm::EnterOrExit;
use hsm::Event;
use hsm::Fatal;
use hsm::Initializer;
use hsm::InstanceParent;
use hsm::Name;
use hsm::State;
use hsm::StateLookup;
use hsm::StateMachine;

#[derive(Debug, Clone, Copy, PartialEq, Eq)]
enum States {
    BadEnter,
    BadExit,
    Delayed,
    Plain,
}

impl InstanceParent<States> for States {
    fn get_parent(&self) -> Option<States> {
        None
    }

    fn eq_id(&self, other: &Self) -> bool {
        self == other
    }
}

#[derive(Debug)]
enum Events {
    Poke,
    Go,
}

#[derive(Debug)]
struct NoData;

/// One state object standing in for each misbehaving kind; its reaction is
/// keyed off the identifier it is addressed under.
struct Table;

impl Name for Table {
    fn name(&self) -> &'static str {
        "Table"
    }
}

impl Initializer for Table {
    fn new() -> Self {
        Table
    }
}

impl State<Events, States, NoData, ()> for Table {
    fn handle_event(
        &mut self,
        _shr_data: &mut NoData,
        _evt: &Event<Events>,
        _data: &mut (),
        _probe: bool,
    ) -> Action<States> {
        Action::Ignore
    }
}

impl StateLookup<States, Events, NoData, ()> for Table {
    fn dispatch(
        &mut self,
        id: &States,
        _shr_data: &mut NoData,
        evt: &Event<Events>,
        _data: &mut (),
        probe: bool,
    ) -> Action<States> {
        match (id, evt) {
            // Declares a transition inside its Enter hook: forbidden.
            (States::BadEnter, Event::Enter) => Action::Transition(States::Plain),
            // Declares a transition inside its Exit hook: forbidden.
            (States::BadExit, Event::Exit) => Action::Transition(States::Plain),
            (States::BadExit, Event::User(Events::Go)) => Action::Transition(States::Plain),
            // Probes a delayed transition but never commits one.
            (States::Delayed, Event::User(Events::Poke)) => {
                if probe {
                    Action::DelayedTransition
                } else {
                    Action::Ignore
                }
            }
            _ => Action::Ignore,
        }
    }
}

#[test]
fn input_before_start_fails() {
    let mut sm: StateMachine<Table, States, NoData> = StateMachine::new(States::Plain, NoData);
    let mut data = ();
    assert_eq!(sm.input(Events::Go, &mut data), Err(Fatal::NotStarted));
}

#[test]
fn transition_from_enter_fails() {
    let mut sm: StateMachine<Table, States, NoData> = StateMachine::new(States::BadEnter, NoData);
    let mut data = ();
    assert_eq!(
        sm.start(&mut data),
        Err(Fatal::LifecycleTransition(States::BadEnter, EnterOrExit::Enter))
    );
    // The machine never became started.
    assert_eq!(sm.input(Events::Go, &mut data), Err(Fatal::NotStarted));
}

#[test]
fn transition_from_exit_fails() {
    let mut sm: StateMachine<Table, States, NoData> = StateMachine::new(States::BadExit, NoData);
    let mut data = ();
    assert!(sm.start(&mut data).is_ok());
    assert_eq!(
        sm.input(Events::Go, &mut data),
        Err(Fatal::LifecycleTransition(States::BadExit, EnterOrExit::Exit))
    );
}

#[test]
fn uncommitted_delayed_transition_fails() {
    let mut sm: StateMachine<Table, States, NoData> = StateMachine::new(States::Delayed, NoData);
    let mut data = ();
    assert!(sm.start(&mut data).is_ok());
    assert_eq!(
        sm.input(Events::Poke, &mut data),
        Err(Fatal::DelayedNotCommitted(States::Delayed))
    );
}
