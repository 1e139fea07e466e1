//! A three-level hierarchy whose states record every lifecycle delivery into
//! the shared data, making enter/exit order observable.
//!
//! The forest:  Root { MidA { LeafA1, LeafA2 }, MidB { LeafB1 } }  and a
//! second tree  Root2 { Leaf2 }.

use hsm::Action;
use hsm::Event;
use hsm::Fatal;
use hsm::Initializer;
use hsm::InstanceParent;
use hsm::Name;
use hsm::Response;
use hsm::State;
use hsm::StateLookup;
use hsm::StateMachine;

#[derive(Debug, Clone, Copy, PartialEq, Eq)]
enum States {
    Root,
    MidA,
    MidB,
    LeafA1,
    LeafA2,
    LeafB1,
    Root2,
    Leaf2,
}

impl InstanceParent<States> for States {
    // The two specification-level methods are overridden to agree with
    // `get_parent`, as the trait's contract asks.
    fn parent_spec(&self) -> Option<States> {
        self.get_parent()
    }

    fn depth_spec(&self) -> u64 {
        match self {
            States::Root => 0,
            States::MidA => 1,
            States::MidB => 1,
            States::LeafA1 => 2,
            States::LeafA2 => 2,
            States::LeafB1 => 2,
            States::Root2 => 0,
            States::Leaf2 => 1,
        }
    }

    fn get_parent(&self) -> Option<States> {
        match self {
            States::Root => None,
            States::MidA => Some(States::Root),
            States::MidB => Some(States::Root),
            States::LeafA1 => Some(States::MidA),
            States::LeafA2 => Some(States::MidA),
            States::LeafB1 => Some(States::MidB),
            States::Root2 => None,
            States::Leaf2 => Some(States::Root2),
        }
    }

    fn eq_id(&self, other: &Self) -> bool {
        self == other
    }
}

#[derive(Debug)]
enum Events {
    /// Handled by whatever state receives it: transition to the target.
    GoTo(States),
    /// Non-root states bubble it; `Root` ignores it.
    AskParent,
    /// Every state bubbles it, the roots included: fatal.
    ParentEverywhere,
    /// Leaves bubble it; a mid-level state transitions to the target; the
    /// roots ignore it.
    MidDecides(States),
}

#[derive(Debug)]
struct Tracer {
    trace: Vec<String>,
}

struct Node {
    label: &'static str,
}

impl Name for Node {
    fn name(&self) -> &'static str {
        self.label
    }
}

impl State<Events, States, Tracer, ()> for Node {
    fn handle_event(
        &mut self,
        shr_data: &mut Tracer,
        evt: &Event<Events>,
        _data: &mut (),
        _probe: bool,
    ) -> Action<States> {
        match evt {
            Event::Enter => {
                shr_data.trace.push(format!("enter {}", self.label));
                Action::Ignore
            }
            Event::Exit => {
                shr_data.trace.push(format!("exit {}", self.label));
                Action::Ignore
            }
            Event::User(Events::GoTo(target)) => Action::Transition(*target),
            Event::User(Events::AskParent) => {
                if self.label == "Root" {
                    Action::Ignore
                } else {
                    Action::Parent
                }
            }
            Event::User(Events::ParentEverywhere) => Action::Parent,
            Event::User(Events::MidDecides(target)) => match self.label {
                "MidA" | "MidB" => Action::Transition(*target),
                "Root" | "Root2" => Action::Ignore,
                _ => Action::Parent,
            },
        }
    }
}

struct StateStruct {
    root: Node,
    mid_a: Node,
    mid_b: Node,
    leaf_a1: Node,
    leaf_a2: Node,
    leaf_b1: Node,
    root2: Node,
    leaf2: Node,
}

impl Initializer for StateStruct {
    fn new() -> Self {
        StateStruct {
            root: Node { label: "Root" },
            mid_a: Node { label: "MidA" },
            mid_b: Node { label: "MidB" },
            leaf_a1: Node { label: "LeafA1" },
            leaf_a2: Node { label: "LeafA2" },
            leaf_b1: Node { label: "LeafB1" },
            root2: Node { label: "Root2" },
            leaf2: Node { label: "Leaf2" },
        }
    }
}

impl StateLookup<States, Events, Tracer, ()> for StateStruct {
    fn dispatch(
        &mut self,
        id: &States,
        shr_data: &mut Tracer,
        evt: &Event<Events>,
        data: &mut (),
        probe: bool,
    ) -> Action<States> {
        let node = match id {
            States::Root => &mut self.root,
            States::MidA => &mut self.mid_a,
            States::MidB => &mut self.mid_b,
            States::LeafA1 => &mut self.leaf_a1,
            States::LeafA2 => &mut self.leaf_a2,
            States::LeafB1 => &mut self.leaf_b1,
            States::Root2 => &mut self.root2,
            States::Leaf2 => &mut self.leaf2,
        };
        node.handle_event(shr_data, evt, data, probe)
    }
}

fn started_at(initial: States) -> StateMachine<StateStruct, States, Tracer> {
    let mut sm = StateMachine::new(initial, Tracer { trace: Vec::new() });
    let mut data = ();
    assert!(sm.start(&mut data).is_ok());
    sm
}

#[test]
fn start_enters_root_to_leaf() {
    // Two ancestors above the initial state: exactly three Enter events,
    // topmost first, and no Exit event.
    let sm = started_at(States::LeafA1);
    assert_eq!(
        sm.data().trace,
        vec!["enter Root", "enter MidA", "enter LeafA1"]
    );
}

#[test]
fn start_flat_state_enters_once() {
    let sm = started_at(States::Root);
    assert_eq!(sm.data().trace, vec!["enter Root"]);
}

#[test]
fn sibling_transition_spares_parent() {
    // LeafA1 and LeafA2 share MidA: one Exit, one Enter, MidA untouched.
    let mut sm = started_at(States::LeafA1);
    let mut data = ();
    let before = sm.data().trace.len();
    let r = sm.input(Events::GoTo(States::LeafA2), &mut data);
    assert_eq!(
        r,
        Ok(Response::Transitioned {
            source: States::LeafA1,
            target: States::LeafA2,
        })
    );
    assert_eq!(
        sm.data().trace[before..],
        vec!["exit LeafA1".to_string(), "enter LeafA2".to_string()]
    );
}

#[test]
fn common_ancestor_two_levels_up() {
    // The nearest common ancestor of LeafA1 and LeafB1 is Root, two levels
    // above both: exactly two Exit and two Enter events, Root untouched.
    let mut sm = started_at(States::LeafA1);
    let mut data = ();
    let before = sm.data().trace.len();
    let r = sm.input(Events::GoTo(States::LeafB1), &mut data);
    assert_eq!(
        r,
        Ok(Response::Transitioned {
            source: States::LeafA1,
            target: States::LeafB1,
        })
    );
    assert_eq!(
        sm.data().trace[before..],
        vec![
            "exit LeafA1".to_string(),
            "exit MidA".to_string(),
            "enter MidB".to_string(),
            "enter LeafB1".to_string(),
        ]
    );
}

#[test]
fn disjoint_trees_full_retransition() {
    // No common ancestor: the whole source chain exits and the whole
    // destination chain enters.
    let mut sm = started_at(States::LeafA1);
    let mut data = ();
    let before = sm.data().trace.len();
    let r = sm.input(Events::GoTo(States::Leaf2), &mut data);
    assert_eq!(
        r,
        Ok(Response::Transitioned {
            source: States::LeafA1,
            target: States::Leaf2,
        })
    );
    assert_eq!(
        sm.data().trace[before..],
        vec![
            "exit LeafA1".to_string(),
            "exit MidA".to_string(),
            "exit Root".to_string(),
            "enter Root2".to_string(),
            "enter Leaf2".to_string(),
        ]
    );
}

#[test]
fn self_transition_is_silent() {
    // from == to: zero Exit and zero Enter events.
    let mut sm = started_at(States::LeafA1);
    let mut data = ();
    let before = sm.data().trace.len();
    let r = sm.input(Events::GoTo(States::LeafA1), &mut data);
    assert_eq!(
        r,
        Ok(Response::Transitioned {
            source: States::LeafA1,
            target: States::LeafA1,
        })
    );
    assert_eq!(sm.data().trace.len(), before);
}

#[test]
fn bubbled_ignore_exits_nothing() {
    // LeafA1 and MidA bubble, Root ignores: the pending exits are discarded
    // and the leaf never receives an Exit for this input.
    let mut sm = started_at(States::LeafA1);
    let mut data = ();
    let before = sm.data().trace.len();
    let r = sm.input(Events::AskParent, &mut data);
    assert_eq!(r, Ok(Response::Handled));
    assert_eq!(sm.data().trace.len(), before);
}

#[test]
fn parent_at_root_is_fatal() {
    let mut sm = started_at(States::LeafA1);
    let mut data = ();
    let before = sm.data().trace.len();
    let r = sm.input(Events::ParentEverywhere, &mut data);
    assert_eq!(r, Err(Fatal::NoParent(States::Root)));
    // Nothing was exited on the way to the failure.
    assert_eq!(sm.data().trace.len(), before);
}

#[test]
fn bubbled_transition_exits_bubbled_states() {
    // LeafA1 bubbles, MidA commits a transition: the bubbled leaf exits
    // first, then the transition's own paths run from MidA.
    let mut sm = started_at(States::LeafA1);
    let mut data = ();
    let before = sm.data().trace.len();
    let r = sm.input(Events::MidDecides(States::LeafB1), &mut data);
    assert_eq!(
        r,
        Ok(Response::Transitioned {
            source: States::MidA,
            target: States::LeafB1,
        })
    );
    assert_eq!(
        sm.data().trace[before..],
        vec![
            "exit LeafA1".to_string(),
            "exit MidA".to_string(),
            "enter MidB".to_string(),
            "enter LeafB1".to_string(),
        ]
    );
}
