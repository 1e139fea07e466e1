//! The capabilities a consumer supplies: state identity, construction, the
//! parent relation, per-state event handling, and the state table.
//!
//! The engine never constructs or destroys state objects; it reaches them
//! only through [`StateLookup`], and it learns the hierarchy only through
//! [`InstanceParent`].

use vstd::prelude::*;

use crate::Action;
use crate::Delivery;
use crate::Event;

verus! {

/// A stable, diagnostic name for a state kind.
pub trait Name {
    fn name(&self) -> &'static str;
}

/// Builds the one live instance of a state object or of the state table.
pub trait Initializer: Sized {
    fn new() -> Self;
}

/// The parent relation per state kind, answered without an instance.
pub trait Parent<UsrStEnum> {
    fn get_parent() -> Option<UsrStEnum>;
}

/// The parent relation queried on a state identifier value.
///
/// `parent_spec` is the relation as the contracts see it, and `get_parent`
/// must agree with it. `depth_spec` is a rank that witnesses acyclicity: the
/// engine's contracts hold under [`crate::hierarchy::forest_ranked`], which
/// says every parent step strictly decreases the rank. `eq_id` must decide
/// equality of identifiers exactly.
///
/// The two spec functions default to a flat hierarchy (no parents, rank 0),
/// so an implementation outside verified code may supply the executable
/// methods alone. A verified implementation with parents overrides both:
/// `get_parent` cannot meet its contract otherwise.
pub trait InstanceParent<UsrStEnum>: Sized {
    /// The parent of this identifier in the hierarchy, if any.
    open spec fn parent_spec(&self) -> Option<UsrStEnum> {
        Option::None
    }

    /// A rank strictly decreasing along parents; witnesses that the parent
    /// relation is a forest.
    open spec fn depth_spec(&self) -> u64 {
        0
    }

    fn get_parent(&self) -> (r: Option<UsrStEnum>)
        ensures
            r == self.parent_spec(),
    ;

    fn eq_id(&self, other: &Self) -> (r: bool)
        ensures
            r == (*self == *other),
    ;
}

/// The contract every concrete state implements: react to an event against
/// the shared context and the event-scoped data.
///
/// `probe` matters only for user events: `true` asks what the state would do
/// without committing side effects that presume the transition happens;
/// `false` is the committing call. A state that answered a probe with
/// `DelayedTransition` must answer the commit call with `Transition`.
pub trait State<UsrEvtEnum, UsrStEnum, UsrShrData, EvtData>: Name {
    fn handle_event(
        &mut self,
        shr_data: &mut UsrShrData,
        evt: &Event<UsrEvtEnum>,
        data: &mut EvtData,
        probe: bool,
    ) -> Action<UsrStEnum>;
}

/// The state table: routes an event to the live state object owned under the
/// given identifier and returns that state's decision.
///
/// This fuses the table lookup with the delivery, since the engine cannot
/// name the concrete state types behind the table.
///
/// `deliveries` is the table's ghost delivery history, and `dispatch` must
/// append exactly one record per call: the engine's contracts are stated
/// over this history, so they speak of deliveries the table actually
/// performed. The history defaults to the empty sequence, so an
/// implementation outside verified code may supply `dispatch` alone. A
/// verified implementation overrides `deliveries` with its own ghost record:
/// `dispatch` cannot meet its contract against the constant default.
pub trait StateLookup<UsrStEnum, UsrEvtEnum, UsrShrData, EvtData> {
    /// Every delivery this table performed, oldest first.
    open spec fn deliveries(&self) -> Seq<Delivery<UsrStEnum, UsrEvtEnum>> {
        Seq::empty()
    }

    fn dispatch(
        &mut self,
        id: &UsrStEnum,
        shr_data: &mut UsrShrData,
        evt: &Event<UsrEvtEnum>,
        data: &mut EvtData,
        probe: bool,
    ) -> (a: Action<UsrStEnum>)
        ensures
            final(self).deliveries() == old(self).deliveries().push(
                (Delivery { state: *id, event: *evt, probe, action: a }),
            ),
    ;
}

} // verus!
