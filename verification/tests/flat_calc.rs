//! A flat (parentless) three-state token machine driving the engine end to
//! end, including the probe/commit path.

use hsm::Action;
use hsm::Event;
use hsm::Initializer;
use hsm::InstanceParent;
use hsm::Name;
use hsm::Parent;
use hsm::Response;
use hsm::State;
use hsm::StateLookup;
use hsm::StateMachine;

#[derive(Debug, Clone, Copy, PartialEq, Eq)]
enum States {
    WaitMinusOrInt,
    WaitInt,
    WaitOp,
}

impl InstanceParent<States> for States {
    fn get_parent(&self) -> Option<States> {
        match self {
            States::WaitMinusOrInt => <WaitMinusOrInt as Parent<States>>::get_parent(),
            States::WaitInt => <WaitInt as Parent<States>>::get_parent(),
            States::WaitOp => <WaitOp as Parent<States>>::get_parent(),
        }
    }

    fn eq_id(&self, other: &Self) -> bool {
        self == other
    }
}

#[derive(Debug)]
enum Events {
    Plus,
    Minus,
    Int(u32),
}

#[derive(Debug, Clone, PartialEq, Eq)]
enum Tokens {
    Plus,
    Minus,
    Int(i32),
}

#[derive(Debug)]
struct SharedData {
    accepted_tokens: Vec<Tokens>,
}

struct WaitMinusOrInt {
    counter: u8,
}

struct WaitInt;

struct WaitOp;

impl Name for WaitMinusOrInt {
    fn name(&self) -> &'static str {
        "WaitMinusOrInt"
    }
}

impl Name for WaitInt {
    fn name(&self) -> &'static str {
        "WaitInt"
    }
}

impl Name for WaitOp {
    fn name(&self) -> &'static str {
        "WaitOp"
    }
}

impl Parent<States> for WaitMinusOrInt {
    fn get_parent() -> Option<States> {
        None
    }
}

impl Parent<States> for WaitInt {
    fn get_parent() -> Option<States> {
        None
    }
}

impl Parent<States> for WaitOp {
    fn get_parent() -> Option<States> {
        None
    }
}

impl Initializer for WaitMinusOrInt {
    fn new() -> Self {
        WaitMinusOrInt { counter: 0 }
    }
}

impl Initializer for WaitInt {
    fn new() -> Self {
        WaitInt
    }
}

impl Initializer for WaitOp {
    fn new() -> Self {
        WaitOp
    }
}

impl State<Events, States, SharedData, ()> for WaitMinusOrInt {
    fn handle_event(
        &mut self,
        shr_data: &mut SharedData,
        evt: &Event<Events>,
        _data: &mut (),
        _probe: bool,
    ) -> Action<States> {
        match evt {
            Event::User(Events::Minus) => {
                self.counter += 1;
                shr_data.accepted_tokens.push(Tokens::Minus);
                Action::Transition(States::WaitInt)
            }
            Event::User(Events::Int(x)) => {
                self.counter += 1;
                shr_data.accepted_tokens.push(Tokens::Int(*x as i32));
                Action::Transition(States::WaitOp)
            }
            _ => Action::Ignore,
        }
    }
}

impl State<Events, States, SharedData, ()> for WaitInt {
    fn handle_event(
        &mut self,
        shr_data: &mut SharedData,
        evt: &Event<Events>,
        _data: &mut (),
        probe: bool,
    ) -> Action<States> {
        match evt {
            Event::User(Events::Int(x)) => {
                if probe {
                    Action::DelayedTransition
                } else {
                    shr_data.accepted_tokens.push(Tokens::Int(*x as i32));
                    Action::Transition(States::WaitOp)
                }
            }
            _ => Action::Ignore,
        }
    }
}

impl State<Events, States, SharedData, ()> for WaitOp {
    fn handle_event(
        &mut self,
        shr_data: &mut SharedData,
        evt: &Event<Events>,
        _data: &mut (),
        _probe: bool,
    ) -> Action<States> {
        match evt {
            Event::User(Events::Plus) => {
                shr_data.accepted_tokens.push(Tokens::Plus);
                Action::Transition(States::WaitMinusOrInt)
            }
            Event::User(Events::Minus) => {
                shr_data.accepted_tokens.push(Tokens::Minus);
                Action::Transition(States::WaitMinusOrInt)
            }
            _ => Action::Ignore,
        }
    }
}

struct StateStruct {
    wait_minus_or_int: WaitMinusOrInt,
    wait_int: WaitInt,
    wait_op: WaitOp,
}

impl Initializer for StateStruct {
    fn new() -> Self {
        StateStruct {
            wait_minus_or_int: WaitMinusOrInt::new(),
            wait_int: WaitInt::new(),
            wait_op: WaitOp::new(),
        }
    }
}

impl StateLookup<States, Events, SharedData, ()> for StateStruct {
    fn dispatch(
        &mut self,
        id: &States,
        shr_data: &mut SharedData,
        evt: &Event<Events>,
        data: &mut (),
        probe: bool,
    ) -> Action<States> {
        match id {
            States::WaitMinusOrInt => self.wait_minus_or_int.handle_event(shr_data, evt, data, probe),
            States::WaitInt => self.wait_int.handle_event(shr_data, evt, data, probe),
            States::WaitOp => self.wait_op.handle_event(shr_data, evt, data, probe),
        }
    }
}

fn make_machine() -> StateMachine<StateStruct, States, SharedData> {
    StateMachine::new(
        States::WaitMinusOrInt,
        SharedData {
            accepted_tokens: Vec::new(),
        },
    )
}

#[test]
fn state_machine() {
    let mut sm = make_machine();
    let mut data = ();
    assert!(sm.start(&mut data).is_ok());
    assert!(sm.input(Events::Int(4), &mut data).is_ok());
}

#[test]
fn calc_scenario() {
    let mut sm = make_machine();
    let mut data = ();
    assert!(sm.start(&mut data).is_ok());

    let r1 = sm.input(Events::Int(4), &mut data);
    assert_eq!(
        r1,
        Ok(Response::Transitioned {
            source: States::WaitMinusOrInt,
            target: States::WaitOp,
        })
    );

    let r2 = sm.input(Events::Plus, &mut data);
    assert_eq!(
        r2,
        Ok(Response::Transitioned {
            source: States::WaitOp,
            target: States::WaitMinusOrInt,
        })
    );

    let r3 = sm.input(Events::Minus, &mut data);
    assert_eq!(
        r3,
        Ok(Response::Transitioned {
            source: States::WaitMinusOrInt,
            target: States::WaitInt,
        })
    );

    // The last transition goes through the probe/commit path inside WaitInt.
    let r4 = sm.input(Events::Int(5), &mut data);
    assert_eq!(
        r4,
        Ok(Response::Transitioned {
            source: States::WaitInt,
            target: States::WaitOp,
        })
    );

    assert_eq!(
        sm.data().accepted_tokens,
        vec![
            Tokens::Int(4),
            Tokens::Plus,
            Tokens::Minus,
            Tokens::Int(5),
        ]
    );
}

#[test]
fn probe_then_commit_consistent() {
    // The probe call must not commit side effects: shared data is untouched
    // until the commit call, which then applies exactly one mutation.
    let mut st = WaitInt;
    let mut shr = SharedData {
        accepted_tokens: Vec::new(),
    };
    let mut data = ();

    let probe_action = st.handle_event(&mut shr, &Event::User(Events::Int(7)), &mut data, true);
    assert!(matches!(probe_action, Action::DelayedTransition));
    assert!(shr.accepted_tokens.is_empty());

    let commit_action = st.handle_event(&mut shr, &Event::User(Events::Int(7)), &mut data, false);
    assert!(matches!(commit_action, Action::Transition(States::WaitOp)));
    assert_eq!(shr.accepted_tokens, vec![Tokens::Int(7)]);
}

#[test]
fn data_accessors() {
    let mut sm = make_machine();
    let mut data = ();
    assert!(sm.start(&mut data).is_ok());
    assert!(sm.data().accepted_tokens.is_empty());
    sm.data_mut().accepted_tokens.push(Tokens::Plus);
    assert_eq!(sm.data().accepted_tokens, vec![Tokens::Plus]);
}

#[test]
fn repeated_round_trips() {
    // WaitMinusOrInt decides twice in one run; every accepted token lands in
    // the shared data in arrival order.
    let mut sm = make_machine();
    let mut data = ();
    assert!(sm.start(&mut data).is_ok());
    assert!(sm.input(Events::Int(1), &mut data).is_ok());
    assert!(sm.input(Events::Plus, &mut data).is_ok());
    assert!(sm.input(Events::Int(2), &mut data).is_ok());
    // Two Int tokens were accepted by the same WaitMinusOrInt instance.
    assert_eq!(
        sm.data().accepted_tokens,
        vec![Tokens::Int(1), Tokens::Plus, Tokens::Int(2)]
    );
}
